//! The bindings that a namespace holds in memory: a table of fixed capacity.
//!
//! The identity of a binding is its key, a root and a path, compared byte for
//! byte; the hashes stored beside them only narrow the scan. Every key that is
//! accepted fits its slot, so every binding can be looked up and listed.
use crate::bytes;
use crate::loam_hash;
use vstd::prelude::*;

pub use crate::loam_hash::fnv1a64;
pub use crate::loam_limits::{MAX_OBJECT_ID, MAX_PATH as MAX_LIST_PATH, MAX_ROOT as MAX_LIST_ROOT};

verus! {

#[derive(Debug, Clone, Copy, PartialEq, Eq, Structural)]
pub enum NamespaceKindCode {
    File,
    Directory,
    Object,
    Volume,
    Symlink,
}

impl NamespaceKindCode {
    /// The code of a kind.
    pub open spec fn code(self) -> u8 {
        match self {
            Self::File => 0,
            Self::Directory => 1,
            Self::Object => 2,
            Self::Volume => 3,
            Self::Symlink => 4,
        }
    }

    /// The kind with the code `b`, if there is one.
    pub fn from_u8(b: u8) -> (r: Option<Self>)
        ensures
            b <= 4 ==> r.is_some() && r.unwrap().code() == b,
            b > 4 ==> r is None,
    {
        match b {
            0 => Some(Self::File),
            1 => Some(Self::Directory),
            2 => Some(Self::Object),
            3 => Some(Self::Volume),
            4 => Some(Self::Symlink),
            _ => None,
        }
    }

    /// The code of this kind.
    pub fn to_u8(self) -> (r: u8)
        ensures
            r == self.code(),
    {
        match self {
            Self::File => 0,
            Self::Directory => 1,
            Self::Object => 2,
            Self::Volume => 3,
            Self::Symlink => 4,
        }
    }
}

/// The kind of a deletion that masks a record on disk until the next compaction.
pub const KIND_TOMBSTONE: u8 = 0xFE;

/// What one slot holds, as plain values.
pub struct Binding {
    pub root: Seq<u8>,
    pub path: Seq<u8>,
    pub object_id: Seq<u8>,
    pub object_id_hash: u64,
    pub revision: u64,
    pub kind: u8,
    /// Nonzero where the snapshot on disk covers the current revision.
    pub snapshotted: u8,
    /// The tag of the running compaction that has merged this binding.
    pub emitted_tag: u8,
    pub expires_at: u64,
    pub locked: u8,
    /// Position of the last change in the change stream.
    pub change_rev: u64,
}

/// The table: its slots, and its place in the change stream.
#[verifier::ext_equal]
pub struct Arena {
    pub slots: Seq<Option<Binding>>,
    pub change_seq: u64,
    pub change_horizon: u64,
}

#[derive(Debug, Clone, Copy, PartialEq, Eq)]
pub struct BindingSlot {
    pub namespace_hash: u64,
    pub path_hash: u64,
    pub object_id_hash: u64,
    pub revision: u64,
    pub kind: u8,
    pub occupied: bool,
    pub object_id_bytes: [u8; MAX_OBJECT_ID],
    pub object_id_len: u8,
    pub path_bytes: [u8; MAX_LIST_PATH],
    pub path_len: u16,
    pub root_bytes: [u8; MAX_LIST_ROOT],
    pub root_len: u8,
    pub snapshotted: u8,
    pub emitted_tag: u8,
    pub expires_at: u64,
    pub locked: u8,
    pub change_rev: u64,
}

impl View for BindingSlot {
    type V = Option<Binding>;

    /// The binding in this slot, if it is occupied.
    open spec fn view(&self) -> Option<Binding> {
        if self.occupied {
            Some(
                Binding {
                    root: self.root_bytes@.take(self.root_len as int),
                    path: self.path_bytes@.take(self.path_len as int),
                    object_id: self.object_id_bytes@.take(self.object_id_len as int),
                    object_id_hash: self.object_id_hash,
                    revision: self.revision,
                    kind: self.kind,
                    snapshotted: self.snapshotted,
                    emitted_tag: self.emitted_tag,
                    expires_at: self.expires_at,
                    locked: self.locked,
                    change_rev: self.change_rev,
                },
            )
        } else {
            None
        }
    }
}

/// `b` binds exactly this object: the kind and the hash agree, and so do the
/// bytes of the id where the binding kept them.
pub open spec fn same_object(b: Binding, object_id_hash: u64, object_id: Seq<u8>, kind: u8) -> bool {
    &&& b.kind == kind
    &&& b.object_id_hash == object_id_hash
    &&& b.object_id.len() == 0 || b.object_id == object_id
}

/// The first bytes of `arr` replaced by `src`.
fn with_prefix<const L: usize>(arr: [u8; L], src: &[u8]) -> (r: [u8; L])
    requires
        src@.len() <= L,
    ensures
        r@.take(src@.len() as int) == src@,
{
    let mut r: [u8; L] = arr;
    let mut i: usize = 0;
    while i < src.len()
        invariant
            i <= src.len() <= L,
            forall|j: int| 0 <= j < i ==> #[trigger] r@[j] == src@[j],
        decreases src.len() - i,
    {
        r[i] = src[i];
        i += 1;
    }
    assert(r@.take(src@.len() as int) =~= src@);
    r
}

impl BindingSlot {
    /// The stored lengths fit their arrays, and the stored hashes are those of
    /// the stored key.
    pub open spec fn wf(&self) -> bool {
        &&& self.object_id_len <= MAX_OBJECT_ID
        &&& self.path_len <= MAX_LIST_PATH
        &&& self.root_len <= MAX_LIST_ROOT
        &&& self.occupied ==> self.namespace_hash == loam_hash::fnv(self.root_bytes@.take(self.root_len as int))
        &&& self.occupied ==> self.path_hash == loam_hash::fnv(self.path_bytes@.take(self.path_len as int))
    }

    /// A free slot.
    pub fn empty() -> (r: Self)
        ensures
            r.wf(),
            r@ is None,
            r.object_id_hash == 0,
            r.root_len == 0,
            r.path_len == 0,
            r.object_id_len == 0,
            r.snapshotted == 0,
            r.emitted_tag == 0,
            r.expires_at == 0,
            r.locked == 0,
    {
        BindingSlot {
            namespace_hash: 0,
            path_hash: 0,
            object_id_hash: 0,
            revision: 0,
            kind: 0,
            occupied: false,
            object_id_bytes: [0u8; MAX_OBJECT_ID],
            object_id_len: 0,
            path_bytes: [0u8; MAX_LIST_PATH],
            path_len: 0,
            root_bytes: [0u8; MAX_LIST_ROOT],
            root_len: 0,
            snapshotted: 0,
            emitted_tag: 0,
            expires_at: 0,
            locked: 0,
            change_rev: 0,
        }
    }

    /// An occupied slot for a key, without an object.
    fn keyed(root: &[u8], path: &[u8], kind: u8, revision: u64, change_rev: u64) -> (r: Self)
        requires
            root@.len() <= MAX_LIST_ROOT,
            path@.len() <= MAX_LIST_PATH,
        ensures
            r.wf(),
            r@ == Some(
                Binding {
                    root: root@,
                    path: path@,
                    object_id: Seq::empty(),
                    object_id_hash: 0,
                    revision,
                    kind,
                    snapshotted: 0,
                    emitted_tag: 0,
                    expires_at: 0,
                    locked: 0,
                    change_rev,
                },
            ),
    {
        let mut s: BindingSlot = Self::empty();
        s.namespace_hash = fnv1a64(root);
        s.path_hash = fnv1a64(path);
        s.root_bytes = with_prefix(s.root_bytes, root);
        s.root_len = root.len() as u8;
        s.path_bytes = with_prefix(s.path_bytes, path);
        s.path_len = path.len() as u16;
        s.kind = kind;
        s.revision = revision;
        s.change_rev = change_rev;
        s.occupied = true;
        assert(s.object_id_bytes@.take(0) =~= Seq::<u8>::empty());
        s
    }

    /// This slot with another object, everything else unchanged.
    fn with_object(self, object_id: &[u8], object_id_hash: u64) -> (r: Self)
        requires
            self.wf(),
            object_id@.len() <= MAX_OBJECT_ID,
        ensures
            r.wf(),
            self@ matches Some(b) ==> r@ == Some(Binding { object_id: object_id@, object_id_hash, ..b }),
            self@ is None ==> r@ is None,
    {
        let mut s: BindingSlot = self;
        s.object_id_hash = object_id_hash;
        s.object_id_bytes = with_prefix(s.object_id_bytes, object_id);
        s.object_id_len = object_id.len() as u8;
        s
    }

    /// Whether this slot holds the key. The hashes filter; the bytes decide.
    pub fn matches(&self, namespace_hash: u64, path_hash: u64, root: &[u8], path: &[u8]) -> (r: bool)
        requires
            self.wf(),
        ensures
            r == (self@.is_some() && self@.unwrap().root == root@ && self@.unwrap().path == path@
                && namespace_hash == loam_hash::fnv(root@) && path_hash == loam_hash::fnv(path@)),
    {
        self.occupied && self.namespace_hash == namespace_hash && self.path_hash == path_hash
            && bytes::bytes_equal(self.root(), root) && bytes::bytes_equal(self.path(), path)
    }

    /// The stored root.
    pub fn root(&self) -> (r: &[u8])
        requires
            self.wf(),
        ensures
            r@ == self.root_bytes@.take(self.root_len as int),
            self@ matches Some(b) ==> r@ == b.root,
    {
        vstd::slice::slice_subrange(self.root_bytes.as_slice(), 0, self.root_len as usize)
    }

    /// The stored path.
    pub fn path(&self) -> (r: &[u8])
        requires
            self.wf(),
        ensures
            r@ == self.path_bytes@.take(self.path_len as int),
            self@ matches Some(b) ==> r@ == b.path,
    {
        vstd::slice::slice_subrange(self.path_bytes.as_slice(), 0, self.path_len as usize)
    }

    /// The stored object id, empty where there is none.
    pub fn object_id(&self) -> (r: &[u8])
        requires
            self.wf(),
        ensures
            r@ == self.object_id_bytes@.take(self.object_id_len as int),
            self@ matches Some(b) ==> r@ == b.object_id,
    {
        vstd::slice::slice_subrange(self.object_id_bytes.as_slice(), 0, self.object_id_len as usize)
    }

    /// Whether this slot already binds exactly this object.
    pub fn binds_same(&self, object_id_hash: u64, object_id: &[u8], kind: u8) -> (r: bool)
        requires
            self.wf(),
        ensures
            self@ matches Some(b) ==> r == same_object(b, object_id_hash, object_id@, kind),
            r == (self.kind == kind && self.object_id_hash == object_id_hash && (self.object_id_len == 0
                || self.object_id_bytes@.take(self.object_id_len as int) == object_id@)),
    {
        if self.kind != kind || self.object_id_hash != object_id_hash {
            return false;
        }
        let inline: &[u8] = self.object_id();
        if inline.len() == 0 {
            return true;
        }
        bytes::bytes_equal(inline, object_id)
    }
}

#[derive(Debug, Clone, Copy, PartialEq, Eq, Structural)]
pub enum ApplyError {
    /// The key is bound, at this revision or a later one, to something else.
    AlreadyBound,
    /// The key is not bound.
    NotBound,
    /// The new name of a rename is taken.
    DestinationOccupied,
    /// No slot is free.
    OutOfCapacity,
    /// The binding is locked, and the operation would have changed or removed it.
    Locked,
    /// A component of the key is over its ceiling.
    KeyTooLong,
}

#[derive(Debug, Clone, Copy, PartialEq, Eq, Structural)]
pub enum ApplyOk {
    Bound { revision: u64 },
    Renamed { new_revision: u64 },
    Unbound,
}

/// The first index from `from` on whose element satisfies `p`.
pub open spec fn first_where(
    s: Seq<Option<Binding>>,
    from: int,
    p: spec_fn(Option<Binding>) -> bool,
) -> Option<int>
    decreases s.len() - from,
{
    if from < 0 || from >= s.len() {
        None
    } else if p(s[from]) {
        Some(from)
    } else {
        first_where(s, from + 1, p)
    }
}

/// One page of the indices from `from` on whose elements satisfy `p`, at most
/// `max` of them, and where to go on, or `None` once all have been looked at.
pub open spec fn page(
    s: Seq<Option<Binding>>,
    from: int,
    max: int,
    p: spec_fn(Option<Binding>) -> bool,
) -> (Seq<int>, Option<int>)
    decreases s.len() - from,
{
    if from < 0 || from >= s.len() {
        (Seq::empty(), None)
    } else if max <= 0 {
        (Seq::empty(), Some(from))
    } else if p(s[from]) {
        let rest = page(s, from + 1, max - 1, p);
        (seq![from] + rest.0, rest.1)
    } else {
        page(s, from + 1, max, p)
    }
}

/// How many elements satisfy `p`.
pub open spec fn count_where(s: Seq<Option<Binding>>, p: spec_fn(Option<Binding>) -> bool) -> nat
    decreases s.len(),
{
    if s.len() == 0 {
        0
    } else {
        count_where(s.drop_last(), p) + (if p(s.last()) { 1nat } else { 0nat })
    }
}

/// The slot holds this key.
pub open spec fn has_key(b: Option<Binding>, root: Seq<u8>, path: Seq<u8>) -> bool {
    b matches Some(x) && x.root == root && x.path == path
}

/// The slot holds this key, and not as a deletion.
pub open spec fn has_live_key(b: Option<Binding>, root: Seq<u8>, path: Seq<u8>) -> bool {
    has_key(b, root, path) && b.unwrap().kind != KIND_TOMBSTONE
}

/// The slot is a binding under `root` whose path begins with `prefix`.
pub open spec fn is_listed(b: Option<Binding>, root: Seq<u8>, prefix: Seq<u8>) -> bool {
    b matches Some(x) && x.kind != KIND_TOMBSTONE && x.root == root && prefix.is_prefix_of(x.path)
}

/// The binding has expired by `now`. A lock keeps it.
pub open spec fn has_expired(b: Option<Binding>, now: u64) -> bool {
    b matches Some(x) && x.kind != KIND_TOMBSTONE && x.locked == 0 && x.expires_at != 0 && x.expires_at <= now
}

/// The slot can be freed: the snapshot covers it, and neither a lock nor a
/// deletion depends on it.
pub open spec fn is_evictable(b: Option<Binding>) -> bool {
    b matches Some(x) && x.locked == 0 && x.snapshotted != 0 && x.kind != KIND_TOMBSTONE
}

/// The slot counts as a reference to the object.
pub open spec fn refers_to(b: Option<Binding>, object_id: Seq<u8>) -> bool {
    b matches Some(x) && x.object_id_hash == loam_hash::fnv(object_id) && (x.object_id.len() == 0 || x.object_id
        == object_id)
}

/// The components of a key fit their ceilings.
pub open spec fn fits(root: Seq<u8>, path: Seq<u8>, object_id: Seq<u8>) -> bool {
    root.len() <= MAX_LIST_ROOT && path.len() <= MAX_LIST_PATH && object_id.len() <= MAX_OBJECT_ID
}

/// A new binding, neither locked nor expiring.
pub open spec fn fresh(
    root: Seq<u8>,
    path: Seq<u8>,
    object_id: Seq<u8>,
    object_id_hash: u64,
    kind: u8,
    revision: u64,
    change_rev: u64,
) -> Binding {
    Binding {
        root,
        path,
        object_id,
        object_id_hash,
        revision,
        kind,
        snapshotted: 0,
        emitted_tag: 0,
        expires_at: 0,
        locked: 0,
        change_rev,
    }
}

impl Arena {
    /// No key is in two slots, and every key fits.
    pub open spec fn wf(self) -> bool {
        &&& forall|i: int|
            0 <= i < self.slots.len() && (#[trigger] self.slots[i]).is_some() ==> fits(
                self.slots[i].unwrap().root,
                self.slots[i].unwrap().path,
                self.slots[i].unwrap().object_id,
            )
        &&& forall|i: int, j: int|
            #![trigger self.slots[i], self.slots[j]]
            0 <= i < j < self.slots.len() && self.slots[i].is_some() && self.slots[j].is_some()
                ==> self.slots[i].unwrap().root != self.slots[j].unwrap().root || self.slots[i].unwrap().path
                != self.slots[j].unwrap().path
    }

    /// The slot that holds a key.
    pub open spec fn find(self, root: Seq<u8>, path: Seq<u8>) -> Option<int> {
        first_where(self.slots, 0, |b: Option<Binding>| has_key(b, root, path))
    }

    /// The binding of a key.
    pub open spec fn get(self, root: Seq<u8>, path: Seq<u8>) -> Option<Binding> {
        match self.find(root, path) {
            Some(i) => self.slots[i],
            None => None,
        }
    }

    /// The slot that holds a key, and not as a deletion.
    pub open spec fn find_live(self, root: Seq<u8>, path: Seq<u8>) -> Option<int> {
        first_where(self.slots, 0, |b: Option<Binding>| has_live_key(b, root, path))
    }

    /// The first free slot.
    pub open spec fn find_free(self) -> Option<int> {
        first_where(self.slots, 0, |b: Option<Binding>| b is None)
    }

    /// The position of the next change.
    pub open spec fn next_seq(self) -> u64 {
        self.change_seq.wrapping_add(1)
    }

    /// The table after the binding in slot `i` became `b`.
    pub open spec fn put(self, i: int, b: Option<Binding>) -> Arena {
        Arena { slots: self.slots.update(i, b), ..self }
    }

    /// The table after a change, at the next position, that left `b` in slot `i`.
    pub open spec fn changed(self, i: int, b: Option<Binding>) -> Arena {
        Arena { slots: self.slots.update(i, b), change_seq: self.next_seq(), ..self }
    }

    /// The table once the change at `rev` can no longer be accounted for.
    pub open spec fn forgot(self, rev: u64) -> Arena {
        if rev > self.change_horizon {
            Arena { change_horizon: rev, ..self }
        } else {
            self
        }
    }

    /// A bind. A bound key is rebound only at a higher revision; the same write
    /// again succeeds and changes nothing; a lock refuses any other object.
    pub open spec fn bind(
        self,
        root: Seq<u8>,
        path: Seq<u8>,
        object_id: Seq<u8>,
        kind: u8,
        revision: u64,
    ) -> (Arena, Result<ApplyOk, ApplyError>) {
        let hash = loam_hash::fnv(object_id);
        if !fits(root, path, object_id) {
            (self, Err(ApplyError::KeyTooLong))
        } else {
            match self.find(root, path) {
                Some(i) => {
                    let b = self.slots[i].unwrap();
                    let same = same_object(b, hash, object_id, kind);
                    if b.locked != 0 && !same {
                        (self, Err(ApplyError::Locked))
                    } else if revision == b.revision && same {
                        (self, Ok(ApplyOk::Bound { revision }))
                    } else if revision > b.revision {
                        (
                            self.changed(
                                i,
                                Some(
                                    Binding {
                                        object_id,
                                        object_id_hash: hash,
                                        kind,
                                        revision,
                                        snapshotted: 0,
                                        emitted_tag: 0,
                                        change_rev: self.next_seq(),
                                        ..b
                                    },
                                ),
                            ),
                            Ok(ApplyOk::Bound { revision }),
                        )
                    } else {
                        (self, Err(ApplyError::AlreadyBound))
                    }
                },
                None => match self.find_free() {
                    Some(i) => (
                        self.changed(
                            i,
                            Some(fresh(root, path, object_id, hash, kind, revision, self.next_seq())),
                        ),
                        Ok(ApplyOk::Bound { revision }),
                    ),
                    None => (self, Err(ApplyError::OutOfCapacity)),
                },
            }
        }
    }

    /// A rename: the binding keeps everything but its path and revision. That the old
    /// path is gone is told by no slot, so the table cannot account for the change.
    pub open spec fn rename(self, root: Seq<u8>, from: Seq<u8>, to: Seq<u8>, new_revision: u64) -> (
        Arena,
        Result<ApplyOk, ApplyError>,
    ) {
        if !fits(root, from, Seq::empty()) || !fits(root, to, Seq::empty()) {
            (self, Err(ApplyError::KeyTooLong))
        } else if self.find(root, to).is_some() {
            (self, Err(ApplyError::DestinationOccupied))
        } else {
            match self.find(root, from) {
                Some(i) => {
                    let b = self.slots[i].unwrap();
                    if b.locked != 0 {
                        (self, Err(ApplyError::Locked))
                    } else {
                        (
                            self.changed(
                                i,
                                Some(
                                    Binding {
                                        path: to,
                                        revision: new_revision,
                                        snapshotted: 0,
                                        emitted_tag: 0,
                                        change_rev: self.next_seq(),
                                        ..b
                                    },
                                ),
                            ).forgot(self.next_seq()),
                            Ok(ApplyOk::Renamed { new_revision }),
                        )
                    }
                },
                None => (self, Err(ApplyError::NotBound)),
            }
        }
    }

    /// A deletion that leaves a mark, over the binding or in a free slot.
    pub open spec fn tombstone(self, root: Seq<u8>, path: Seq<u8>, revision: u64) -> (
        Arena,
        Result<ApplyOk, ApplyError>,
    ) {
        if !fits(root, path, Seq::empty()) {
            (self, Err(ApplyError::KeyTooLong))
        } else {
            match self.find(root, path) {
                Some(i) => {
                    let b = self.slots[i].unwrap();
                    if b.locked != 0 {
                        (self, Err(ApplyError::Locked))
                    } else {
                        (
                            self.changed(
                                i,
                                Some(
                                    Binding {
                                        object_id: Seq::empty(),
                                        kind: KIND_TOMBSTONE,
                                        revision,
                                        snapshotted: 0,
                                        emitted_tag: 0,
                                        change_rev: self.next_seq(),
                                        ..b
                                    },
                                ),
                            ),
                            Ok(ApplyOk::Unbound),
                        )
                    }
                },
                None => match self.find_free() {
                    Some(i) => (
                        self.changed(
                            i,
                            Some(fresh(root, path, Seq::empty(), 0, KIND_TOMBSTONE, revision, self.next_seq())),
                        ),
                        Ok(ApplyOk::Unbound),
                    ),
                    None => (self, Err(ApplyError::OutOfCapacity)),
                },
            }
        }
    }

    /// A deletion that frees the slot. It leaves nothing that tells of it, so the
    /// table cannot account for the change.
    pub open spec fn unbind(self, root: Seq<u8>, path: Seq<u8>) -> (Arena, Result<ApplyOk, ApplyError>) {
        match self.find(root, path) {
            Some(i) => if self.slots[i].unwrap().locked != 0 {
                (self, Err(ApplyError::Locked))
            } else {
                (self.changed(i, None).forgot(self.next_seq()), Ok(ApplyOk::Unbound))
            },
            None => (self, Err(ApplyError::NotBound)),
        }
    }

    /// Setting the expiry of a live binding is no change in the stream.
    pub open spec fn set_expiry(self, root: Seq<u8>, path: Seq<u8>, at: u64) -> (
        Arena,
        Result<ApplyOk, ApplyError>,
    ) {
        match self.find_live(root, path) {
            Some(i) => {
                let b = self.slots[i].unwrap();
                (
                    self.put(i, Some(Binding { expires_at: at, ..b })),
                    Ok(ApplyOk::Bound { revision: b.revision }),
                )
            },
            None => (self, Err(ApplyError::NotBound)),
        }
    }

    /// Locking or unlocking a live binding is no change in the stream.
    pub open spec fn set_lock(self, root: Seq<u8>, path: Seq<u8>, locked: bool) -> (
        Arena,
        Result<ApplyOk, ApplyError>,
    ) {
        match self.find_live(root, path) {
            Some(i) => {
                let b = self.slots[i].unwrap();
                (
                    self.put(i, Some(Binding { locked: if locked { 1u8 } else { 0u8 }, ..b })),
                    Ok(ApplyOk::Bound { revision: b.revision }),
                )
            },
            None => (self, Err(ApplyError::NotBound)),
        }
    }

    /// Freeing the first slot that can be freed; its change is then forgotten.
    pub open spec fn evict(self) -> (Arena, bool) {
        match first_where(self.slots, 0, |b: Option<Binding>| is_evictable(b)) {
            Some(i) => (self.put(i, None).forgot(self.slots[i].unwrap().change_rev), true),
            None => (self, false),
        }
    }

    /// A slot once the compaction with this tag is durable.
    pub open spec fn finalized_slot(b: Option<Binding>, tag: u8) -> Option<Binding> {
        match b {
            Some(x) => if x.emitted_tag != tag {
                b
            } else if x.kind == KIND_TOMBSTONE {
                None
            } else {
                Some(Binding { snapshotted: 1, emitted_tag: 0, ..x })
            },
            None => None,
        }
    }

    /// The newest change among the deletions that the compaction with this tag drops
    /// from the first `n` slots, or zero.
    pub open spec fn newest_dropped(self, tag: u8, n: nat) -> u64
        decreases n,
    {
        if n == 0 {
            0
        } else {
            let before = self.newest_dropped(tag, (n - 1) as nat);
            match self.slots[n - 1] {
                Some(x) => if x.emitted_tag == tag && x.kind == KIND_TOMBSTONE && x.change_rev > before {
                    x.change_rev
                } else {
                    before
                },
                None => before,
            }
        }
    }

    /// The table once the compaction with this tag is durable.
    pub open spec fn finalize(self, tag: u8) -> Arena {
        Arena {
            slots: Seq::new(self.slots.len(), |i: int| Arena::finalized_slot(self.slots[i], tag)),
            ..self
        }.forgot(self.newest_dropped(tag, self.slots.len()))
    }
}

/// Whether every component of a key fits its ceiling.
pub fn key_fits(namespace_root: &[u8], path: &[u8], object_id: &[u8]) -> (r: bool)
    ensures
        r == fits(namespace_root@, path@, object_id@),
{
    namespace_root.len() <= MAX_LIST_ROOT && path.len() <= MAX_LIST_PATH && object_id.len() <= MAX_OBJECT_ID
}

/// The hashes of a key.
pub fn key_hash(namespace_root: &[u8], path: &[u8]) -> (r: (u64, u64))
    ensures
        r.0 == loam_hash::fnv(namespace_root@),
        r.1 == loam_hash::fnv(path@),
{
    (fnv1a64(namespace_root), fnv1a64(path))
}

/// A binding table with `N` slots.
pub struct PicNamespaceState<const N: usize> {
    slots: Vec<BindingSlot>,
    change_seq: u64,
    change_horizon: u64,
}

impl<const N: usize> View for PicNamespaceState<N> {
    type V = Arena;

    closed spec fn view(&self) -> Arena {
        Arena {
            slots: Seq::new(self.slots@.len(), |i: int| self.slots@[i]@),
            change_seq: self.change_seq,
            change_horizon: self.change_horizon,
        }
    }
}

impl<const N: usize> PicNamespaceState<N> {
    /// Every slot is stored soundly.
    pub closed spec fn slots_sound(&self) -> bool {
        forall|i: int| 0 <= i < self.slots@.len() ==> (#[trigger] self.slots@[i]).wf()
    }

    /// The table has `N` slots, stored soundly, with no key twice.
    pub open spec fn wf(&self) -> bool {
        &&& self.slots_sound()
        &&& self@.slots.len() == N
        &&& self@.wf()
    }

    /// An empty table.
    pub fn new() -> (r: Self)
        ensures
            r.wf(),
            r@ == (Arena {
                slots: Seq::new(N as nat, |i: int| None::<Binding>),
                change_seq: 0,
                change_horizon: 0,
            }),
    {
        let mut slots: Vec<BindingSlot> = Vec::new();
        let mut i: usize = 0;
        while i < N
            invariant
                i <= N,
                slots.len() == i,
                forall|j: int| 0 <= j < i ==> (#[trigger] slots@[j]).wf() && slots@[j]@ is None,
            decreases N - i,
        {
            slots.push(BindingSlot::empty());
            i += 1;
        }
        let r: PicNamespaceState<N> = PicNamespaceState { slots, change_seq: 0, change_horizon: 0 };
        assert(r@.slots =~= Seq::new(N as nat, |i: int| None::<Binding>));
        r
    }

    /// The newest change that this table can no longer account for.
    pub fn change_horizon(&self) -> (r: u64)
        ensures
            r == self@.change_horizon,
    {
        self.change_horizon
    }

    /// The position of the newest change.
    pub fn change_seq(&self) -> (r: u64)
        ensures
            r == self@.change_seq,
    {
        self.change_seq
    }

    /// How many slots there are.
    pub fn capacity(&self) -> (r: usize)
        ensures
            r == N,
    {
        N
    }

    /// How many slots are occupied.
    pub fn len(&self) -> (r: usize)
        requires
            self.wf(),
        ensures
            r == count_where(self@.slots, |b: Option<Binding>| b.is_some()),
            r <= N,
    {
        let ghost p = |b: Option<Binding>| b.is_some();
        let mut n: usize = 0;
        let mut i: usize = 0;
        assert(self@.slots.take(0) =~= Seq::empty());
        while i < N
            invariant
                i <= N,
                self.wf(),
                n <= i,
                p == (|b: Option<Binding>| b.is_some()),
                n == count_where(self@.slots.take(i as int), p),
            decreases N - i,
        {
            assert(self@.slots.take(i + 1).drop_last() =~= self@.slots.take(i as int));
            assert(self@.slots.take(i + 1).last() == self@.slots[i as int]);
            if self.slots[i].occupied {
                n += 1;
            }
            i += 1;
        }
        assert(self@.slots.take(i as int) =~= self@.slots);
        n
    }

    /// Whether no slot is occupied.
    pub fn is_empty(&self) -> (r: bool)
        requires
            self.wf(),
        ensures
            r == (count_where(self@.slots, |b: Option<Binding>| b.is_some()) == 0),
    {
        self.len() == 0
    }

    /// How many slots are occupied.
    pub fn occupied_count(&self) -> (r: usize)
        requires
            self.wf(),
        ensures
            r == count_where(self@.slots, |b: Option<Binding>| b.is_some()),
            r <= N,
    {
        self.len()
    }

    /// How many occupied slots the snapshot does not cover.
    pub fn dirty_count(&self) -> (r: usize)
        requires
            self.wf(),
        ensures
            r == count_where(self@.slots, |b: Option<Binding>| b.is_some() && b.unwrap().snapshotted == 0),
            r <= N,
    {
        let ghost p = |b: Option<Binding>| b.is_some() && b.unwrap().snapshotted == 0;
        let mut n: usize = 0;
        let mut i: usize = 0;
        assert(self@.slots.take(0) =~= Seq::empty());
        while i < N
            invariant
                i <= N,
                self.wf(),
                n <= i,
                p == (|b: Option<Binding>| b.is_some() && b.unwrap().snapshotted == 0),
                n == count_where(self@.slots.take(i as int), p),
            decreases N - i,
        {
            assert(self@.slots.take(i + 1).drop_last() =~= self@.slots.take(i as int));
            assert(self@.slots.take(i + 1).last() == self@.slots[i as int]);
            if self.slots[i].occupied && self.slots[i].snapshotted == 0 {
                n += 1;
            }
            i += 1;
        }
        assert(self@.slots.take(i as int) =~= self@.slots);
        n
    }

    /// Slot `i`, where there is one.
    pub fn slot_ref(&self, i: usize) -> (r: Option<&BindingSlot>)
        requires
            self.wf(),
        ensures
            i < N ==> r.is_some() && r.unwrap().wf() && r.unwrap()@ == self@.slots[i as int],
            i >= N ==> r is None,
    {
        if i < self.slots.len() {
            assert(self@.slots[i as int] == self.slots@[i as int]@);
            Some(&self.slots[i])
        } else {
            None
        }
    }

    /// The slot of a key whose hashes are given.
    fn position(&self, namespace_hash: u64, path_hash: u64, root: &[u8], path: &[u8]) -> (r: Option<usize>)
        requires
            self.wf(),
        ensures
            if namespace_hash == loam_hash::fnv(root@) && path_hash == loam_hash::fnv(path@) {
                match r {
                    Some(i) => i < N && self@.find(root@, path@) == Some(i as int) && self@.slots[i as int].is_some()
                        && has_key(self@.slots[i as int], root@, path@),
                    None => self@.find(root@, path@) is None,
                }
            } else {
                r is None
            },
    {
        let ghost p = |b: Option<Binding>| has_key(b, root@, path@);
        let mut i: usize = 0;
        while i < N
            invariant
                i <= N,
                self.wf(),
                p == (|b: Option<Binding>| has_key(b, root@, path@)),
                namespace_hash == loam_hash::fnv(root@) && path_hash == loam_hash::fnv(path@)
                    ==> first_where(self@.slots, 0, p) == first_where(self@.slots, i as int, p),
            decreases N - i,
        {
            assert(self@.slots[i as int] == self.slots@[i as int]@);
            if self.slots[i].matches(namespace_hash, path_hash, root, path) {
                return Some(i);
            }
            i += 1;
        }
        None
    }

    /// The first free slot.
    fn free_position(&self) -> (r: Option<usize>)
        requires
            self.wf(),
        ensures
            match r {
                Some(i) => i < N && self@.find_free() == Some(i as int) && self@.slots[i as int] is None,
                None => self@.find_free() is None,
            },
    {
        let ghost p = |b: Option<Binding>| b is None;
        let mut i: usize = 0;
        while i < N
            invariant
                i <= N,
                self.wf(),
                p == (|b: Option<Binding>| b is None),
                first_where(self@.slots, 0, p) == first_where(self@.slots, i as int, p),
            decreases N - i,
        {
            assert(self@.slots[i as int] == self.slots@[i as int]@);
            if !self.slots[i].occupied {
                return Some(i);
            }
            i += 1;
        }
        None
    }

    /// Store a slot.
    fn store(&mut self, i: usize, slot: BindingSlot)
        requires
            old(self).slots_sound(),
            i < old(self)@.slots.len(),
            slot.wf(),
        ensures
            final(self).slots_sound(),
            final(self)@ == old(self)@.put(i as int, slot@),
    {
        self.slots[i] = slot;
        assert(self@.slots =~= old(self)@.slots.update(i as int, slot@));
    }

    /// The binding of a key.
    pub fn lookup(&self, namespace_root: &[u8], path: &[u8]) -> (r: Option<&BindingSlot>)
        requires
            self.wf(),
        ensures
            match r {
                Some(s) => s.wf() && s@.is_some() && s@ == self@.get(namespace_root@, path@),
                None => self@.get(namespace_root@, path@) is None,
            },
    {
        let (ns_h, p_h) = key_hash(namespace_root, path);
        self.lookup_hashed(ns_h, p_h, namespace_root, path)
    }

    /// The binding of a key whose hashes the caller has at hand. With hashes
    /// that are not those of the key nothing is found.
    pub fn lookup_hashed(&self, namespace_hash: u64, path_hash: u64, root: &[u8], path: &[u8]) -> (r: Option<
        &BindingSlot,
    >)
        requires
            self.wf(),
        ensures
            if namespace_hash == loam_hash::fnv(root@) && path_hash == loam_hash::fnv(path@) {
                match r {
                    Some(s) => s.wf() && s@.is_some() && s@ == self@.get(root@, path@),
                    None => self@.get(root@, path@) is None,
                }
            } else {
                r is None
            },
    {
        match self.position(namespace_hash, path_hash, root, path) {
            Some(i) => {
                assert(self@.slots[i as int] == self.slots@[i as int]@);
                Some(&self.slots[i])
            },
            None => None,
        }
    }

    /// Bind a key to an object.
    pub fn bind(&mut self, namespace_root: &[u8], path: &[u8], object_id: &[u8], kind: u8, revision: u64) -> (r: Result<
        ApplyOk,
        ApplyError,
    >)
        requires
            old(self).wf(),
        ensures
            final(self).wf(),
            (final(self)@, r) == old(self)@.bind(namespace_root@, path@, object_id@, kind, revision),
    {
        if !key_fits(namespace_root, path, object_id) {
            return Err(ApplyError::KeyTooLong);
        }
        let (ns_h, p_h) = key_hash(namespace_root, path);
        let oid_h: u64 = fnv1a64(object_id);
        let seq: u64 = self.change_seq.wrapping_add(1);
        if let Some(i) = self.position(ns_h, p_h, namespace_root, path) {
            assert(self@.slots[i as int] == self.slots@[i as int]@);
            let s: BindingSlot = self.slots[i];
            let same: bool = s.binds_same(oid_h, object_id, kind);
            if s.locked != 0 && !same {
                return Err(ApplyError::Locked);
            }
            if revision == s.revision && same {
                return Ok(ApplyOk::Bound { revision });
            }
            if revision > s.revision {
                let mut t: BindingSlot = s.with_object(object_id, oid_h);
                t.revision = revision;
                t.kind = kind;
                t.snapshotted = 0;
                t.emitted_tag = 0;
                t.change_rev = seq;
                self.store(i, t);
                self.change_seq = seq;
                return Ok(ApplyOk::Bound { revision });
            }
            return Err(ApplyError::AlreadyBound);
        }
        match self.free_position() {
            Some(i) => {
                let t: BindingSlot = BindingSlot::keyed(namespace_root, path, kind, revision, seq).with_object(
                    object_id,
                    oid_h,
                );
                self.store(i, t);
                self.change_seq = seq;
                proof {
                    lemma_first_where(old(self)@.slots, 0, |b: Option<Binding>| has_key(b, namespace_root@, path@));
                }
                Ok(ApplyOk::Bound { revision })
            },
            None => Err(ApplyError::OutOfCapacity),
        }
    }

    /// Give the binding of `from` the path `to`.
    pub fn rename(&mut self, namespace_root: &[u8], from: &[u8], to: &[u8], new_revision: u64) -> (r: Result<
        ApplyOk,
        ApplyError,
    >)
        requires
            old(self).wf(),
        ensures
            final(self).wf(),
            (final(self)@, r) == old(self)@.rename(namespace_root@, from@, to@, new_revision),
    {
        if namespace_root.len() > MAX_LIST_ROOT || from.len() > MAX_LIST_PATH || to.len() > MAX_LIST_PATH {
            return Err(ApplyError::KeyTooLong);
        }
        let seq: u64 = self.change_seq.wrapping_add(1);
        let (ns_h, from_h) = key_hash(namespace_root, from);
        let (_, to_h) = key_hash(namespace_root, to);
        if self.position(ns_h, to_h, namespace_root, to).is_some() {
            return Err(ApplyError::DestinationOccupied);
        }
        match self.position(ns_h, from_h, namespace_root, from) {
            Some(i) => {
                assert(self@.slots[i as int] == self.slots@[i as int]@);
                let mut t: BindingSlot = self.slots[i];
                if t.locked != 0 {
                    return Err(ApplyError::Locked);
                }
                t.path_hash = to_h;
                t.path_bytes = with_prefix(t.path_bytes, to);
                t.path_len = to.len() as u16;
                t.revision = new_revision;
                t.snapshotted = 0;
                t.emitted_tag = 0;
                t.change_rev = seq;
                self.store(i, t);
                self.change_seq = seq;
                self.forget_change(seq);
                proof {
                    lemma_first_where(old(self)@.slots, 0, |b: Option<Binding>| has_key(b, namespace_root@, to@));
                }
                Ok(ApplyOk::Renamed { new_revision })
            },
            None => Err(ApplyError::NotBound),
        }
    }

    /// Whether any occupied slot, under any root, refers to the object.
    pub fn object_id_referenced(&self, object_id: &[u8]) -> (r: bool)
        requires
            self.wf(),
        ensures
            r == (exists|i: int| 0 <= i < N && refers_to(#[trigger] self@.slots[i], object_id@)),
    {
        let h: u64 = fnv1a64(object_id);
        let mut i: usize = 0;
        while i < N
            invariant
                i <= N,
                self.wf(),
                h == loam_hash::fnv(object_id@),
                forall|j: int| 0 <= j < i ==> !refers_to(#[trigger] self@.slots[j], object_id@),
            decreases N - i,
        {
            assert(self@.slots[i as int] == self.slots@[i as int]@);
            let s: &BindingSlot = &self.slots[i];
            if s.occupied && s.object_id_hash == h && (s.object_id_len == 0 || bytes::bytes_equal(
                s.object_id(),
                object_id,
            )) {
                return true;
            }
            i += 1;
        }
        false
    }

    /// Replace a binding by a deletion that keeps masking the snapshot, or insert one.
    pub fn tombstone(&mut self, namespace_root: &[u8], path: &[u8], revision: u64) -> (r: Result<ApplyOk, ApplyError>)
        requires
            old(self).wf(),
        ensures
            final(self).wf(),
            (final(self)@, r) == old(self)@.tombstone(namespace_root@, path@, revision),
    {
        if namespace_root.len() > MAX_LIST_ROOT || path.len() > MAX_LIST_PATH {
            return Err(ApplyError::KeyTooLong);
        }
        let seq: u64 = self.change_seq.wrapping_add(1);
        let (ns_h, p_h) = key_hash(namespace_root, path);
        if let Some(i) = self.position(ns_h, p_h, namespace_root, path) {
            assert(self@.slots[i as int] == self.slots@[i as int]@);
            let mut t: BindingSlot = self.slots[i];
            if t.locked != 0 {
                return Err(ApplyError::Locked);
            }
            t.kind = KIND_TOMBSTONE;
            t.revision = revision;
            t.object_id_len = 0;
            t.snapshotted = 0;
            t.emitted_tag = 0;
            t.change_rev = seq;
            assert(t.object_id_bytes@.take(0) =~= Seq::<u8>::empty());
            self.store(i, t);
            self.change_seq = seq;
            return Ok(ApplyOk::Unbound);
        }
        match self.free_position() {
            Some(i) => {
                let t: BindingSlot = BindingSlot::keyed(namespace_root, path, KIND_TOMBSTONE, revision, seq);
                self.store(i, t);
                self.change_seq = seq;
                proof {
                    lemma_first_where(old(self)@.slots, 0, |b: Option<Binding>| has_key(b, namespace_root@, path@));
                }
                Ok(ApplyOk::Unbound)
            },
            None => Err(ApplyError::OutOfCapacity),
        }
    }

    /// Free the slot of a key.
    pub fn unbind(&mut self, namespace_root: &[u8], path: &[u8]) -> (r: Result<ApplyOk, ApplyError>)
        requires
            old(self).wf(),
        ensures
            final(self).wf(),
            (final(self)@, r) == old(self)@.unbind(namespace_root@, path@),
    {
        let seq: u64 = self.change_seq.wrapping_add(1);
        let (ns_h, p_h) = key_hash(namespace_root, path);
        match self.position(ns_h, p_h, namespace_root, path) {
            Some(i) => {
                assert(self@.slots[i as int] == self.slots@[i as int]@);
                if self.slots[i].locked != 0 {
                    return Err(ApplyError::Locked);
                }
                self.store(i, BindingSlot::empty());
                self.change_seq = seq;
                self.forget_change(seq);
                Ok(ApplyOk::Unbound)
            },
            None => Err(ApplyError::NotBound),
        }
    }

    /// The slot that holds a key, and not as a deletion.
    fn live_position(&self, root: &[u8], path: &[u8]) -> (r: Option<usize>)
        requires
            self.wf(),
        ensures
            match r {
                Some(i) => i < N && self@.find_live(root@, path@) == Some(i as int) && self@.slots[i as int].is_some(),
                None => self@.find_live(root@, path@) is None,
            },
    {
        let (ns_h, p_h) = key_hash(root, path);
        let ghost p = |b: Option<Binding>| has_live_key(b, root@, path@);
        let mut i: usize = 0;
        while i < N
            invariant
                i <= N,
                self.wf(),
                ns_h == loam_hash::fnv(root@),
                p_h == loam_hash::fnv(path@),
                p == (|b: Option<Binding>| has_live_key(b, root@, path@)),
                first_where(self@.slots, 0, p) == first_where(self@.slots, i as int, p),
            decreases N - i,
        {
            assert(self@.slots[i as int] == self.slots@[i as int]@);
            if self.slots[i].matches(ns_h, p_h, root, path) && self.slots[i].kind != KIND_TOMBSTONE {
                return Some(i);
            }
            i += 1;
        }
        None
    }

    /// Set when a binding expires; zero means never.
    pub fn set_expiry(&mut self, namespace_root: &[u8], path: &[u8], at: u64) -> (r: Result<ApplyOk, ApplyError>)
        requires
            old(self).wf(),
        ensures
            final(self).wf(),
            (final(self)@, r) == old(self)@.set_expiry(namespace_root@, path@, at),
    {
        match self.live_position(namespace_root, path) {
            Some(i) => {
                assert(self@.slots[i as int] == self.slots@[i as int]@);
                let mut t: BindingSlot = self.slots[i];
                t.expires_at = at;
                self.store(i, t);
                Ok(ApplyOk::Bound { revision: t.revision })
            },
            None => Err(ApplyError::NotBound),
        }
    }

    /// Set or clear the lock of a binding.
    pub fn set_lock(&mut self, namespace_root: &[u8], path: &[u8], locked: bool) -> (r: Result<ApplyOk, ApplyError>)
        requires
            old(self).wf(),
        ensures
            final(self).wf(),
            (final(self)@, r) == old(self)@.set_lock(namespace_root@, path@, locked),
    {
        match self.live_position(namespace_root, path) {
            Some(i) => {
                assert(self@.slots[i as int] == self.slots@[i as int]@);
                let mut t: BindingSlot = self.slots[i];
                t.locked = if locked { 1 } else { 0 };
                self.store(i, t);
                Ok(ApplyOk::Bound { revision: t.revision })
            },
            None => Err(ApplyError::NotBound),
        }
    }

    /// Whether the binding has expired by `now`; a locked one never has.
    pub fn is_expired(&self, namespace_root: &[u8], path: &[u8], now: u64) -> (r: bool)
        requires
            self.wf(),
        ensures
            r == (self@.get(namespace_root@, path@) matches Some(b) && b.locked == 0 && b.expires_at != 0
                && b.expires_at <= now),
    {
        match self.lookup(namespace_root, path) {
            Some(s) => s.locked == 0 && s.expires_at != 0 && s.expires_at <= now,
            None => false,
        }
    }

    /// Whether the binding is locked.
    pub fn is_locked(&self, namespace_root: &[u8], path: &[u8]) -> (r: bool)
        requires
            self.wf(),
        ensures
            r == (self@.get(namespace_root@, path@) matches Some(b) && b.locked != 0),
    {
        match self.lookup(namespace_root, path) {
            Some(s) => s.locked != 0,
            None => false,
        }
    }

    /// Record that the change at `rev` has left the table.
    fn forget_change(&mut self, rev: u64)
        requires
            old(self).slots_sound(),
        ensures
            final(self).slots_sound(),
            final(self)@ == old(self)@.forgot(rev),
    {
        if rev > self.change_horizon {
            self.change_horizon = rev;
        }
    }

    /// Free one slot that the snapshot covers. Returns whether one was freed.
    pub fn evict_one_snapshotted(&mut self) -> (r: bool)
        requires
            old(self).wf(),
        ensures
            final(self).wf(),
            (final(self)@, r) == old(self)@.evict(),
    {
        let ghost p = |b: Option<Binding>| is_evictable(b);
        let mut i: usize = 0;
        while i < N
            invariant
                i <= N,
                self.wf(),
                self@ == old(self)@,
                p == (|b: Option<Binding>| is_evictable(b)),
                first_where(self@.slots, 0, p) == first_where(self@.slots, i as int, p),
            decreases N - i,
        {
            assert(self@.slots[i as int] == self.slots@[i as int]@);
            let s: BindingSlot = self.slots[i];
            if s.occupied && s.locked == 0 && s.snapshotted != 0 && s.kind != KIND_TOMBSTONE {
                self.store(i, BindingSlot::empty());
                self.forget_change(s.change_rev);
                return true;
            }
            i += 1;
        }
        false
    }

    /// Note that the compaction with this tag has merged slot `i`.
    pub fn mark_emitted(&mut self, i: usize, tag: u8)
        requires
            old(self).wf(),
        ensures
            final(self).wf(),
            final(self)@ == if i < N && old(self)@.slots[i as int].is_some() {
                old(self)@.put(
                    i as int,
                    Some(Binding { emitted_tag: tag, ..old(self)@.slots[i as int].unwrap() }),
                )
            } else {
                old(self)@
            },
    {
        if i < self.slots.len() {
            assert(self@.slots[i as int] == self.slots@[i as int]@);
            let mut t: BindingSlot = self.slots[i];
            t.emitted_tag = tag;
            self.store(i, t);
            assert(self@.slots =~= old(self)@.put(i as int, t@).slots);
            assert(old(self)@.slots[i as int] is None ==> self@.slots =~= old(self)@.slots);
        }
    }

    /// The compaction with this tag is durable: what it merged can be evicted,
    /// and the deletions it merged are gone.
    pub fn finalize_emitted(&mut self, tag: u8)
        requires
            old(self).wf(),
        ensures
            final(self).wf(),
            final(self)@ == old(self)@.finalize(tag),
    {
        let mut dropped: u64 = 0;
        let mut i: usize = 0;
        while i < N
            invariant
                i <= N,
                self.slots_sound(),
                self@.slots.len() == N,
                old(self)@.slots.len() == N,
                self@.change_seq == old(self)@.change_seq,
                self@.change_horizon == old(self)@.change_horizon,
                forall|j: int|
                    0 <= j < i ==> #[trigger] self@.slots[j] == Arena::finalized_slot(old(self)@.slots[j], tag),
                forall|j: int| i <= j < N ==> #[trigger] self@.slots[j] == old(self)@.slots[j],
                dropped == old(self)@.newest_dropped(tag, i as nat),
            decreases N - i,
        {
            assert(self@.slots[i as int] == self.slots@[i as int]@);
            let s: BindingSlot = self.slots[i];
            if s.occupied && s.emitted_tag == tag {
                if s.kind == KIND_TOMBSTONE {
                    if s.change_rev > dropped {
                        dropped = s.change_rev;
                    }
                    self.store(i, BindingSlot::empty());
                } else {
                    let mut t: BindingSlot = s;
                    t.snapshotted = 1;
                    t.emitted_tag = 0;
                    self.store(i, t);
                }
            }
            i += 1;
        }
        self.forget_change(dropped);
        assert(self@.slots =~= old(self)@.finalize(tag).slots);
    }

    /// One page of the bindings that have expired by `now`: their slot numbers in
    /// order, at most `max` of them, and the cursor to go on with, zero at the end.
    pub fn expired_page(&self, now: u64, cursor: u32, max: usize) -> (r: (Vec<usize>, u32))
        requires
            self.wf(),
            N <= u32::MAX,
        ensures
            ({
                let want = page(self@.slots, cursor as int, max as int, |b: Option<Binding>| has_expired(b, now));
                &&& numbers(r.0@) == want.0
                &&& r.1 == (match want.1 {
                    Some(i) => i,
                    None => 0,
                })
            }),
    {
        let ghost p = |b: Option<Binding>| has_expired(b, now);
        let ghost all = page(self@.slots, cursor as int, max as int, p);
        let mut found: Vec<usize> = Vec::new();
        let mut idx: usize = cursor as usize;
        assert(numbers(found@) + all.0 =~= all.0);
        while idx < N && found.len() < max
            invariant
                self.wf(),
                N <= u32::MAX,
                found.len() <= max,
                idx <= N || found.len() == 0,
                p == (|b: Option<Binding>| has_expired(b, now)),
                all.0 == numbers(found@) + page(self@.slots, idx as int, max - found.len(), p).0,
                all.1 == page(self@.slots, idx as int, max - found.len(), p).1,
            decreases N - idx,
        {
            assert(self@.slots[idx as int] == self.slots@[idx as int]@);
            let s: &BindingSlot = &self.slots[idx];
            let ghost rest = page(self@.slots, idx as int, max - found.len(), p);
            if s.occupied && s.kind != KIND_TOMBSTONE && s.locked == 0 && s.expires_at != 0 && s.expires_at <= now {
                let ghost before = found@;
                found.push(idx);
                assert(numbers(found@) =~= numbers(before) + seq![idx as int]);
                assert(all.0 =~= numbers(found@) + page(self@.slots, idx + 1, max - found.len(), p).0);
            }
            idx += 1;
        }
        assert(all.0 =~= numbers(found@));
        if idx >= N {
            (found, 0)
        } else {
            (found, idx as u32)
        }
    }

    /// The first slot from `cursor` on that is listed under `namespace_root` and `prefix`.
    pub fn next_listed(&self, namespace_root: &[u8], prefix: &[u8], cursor: usize) -> (r: Option<usize>)
        requires
            self.wf(),
        ensures
            match r {
                Some(i) => i < N && first_where(
                    self@.slots,
                    cursor as int,
                    |b: Option<Binding>| is_listed(b, namespace_root@, prefix@),
                ) == Some(i as int),
                None => first_where(
                    self@.slots,
                    cursor as int,
                    |b: Option<Binding>| is_listed(b, namespace_root@, prefix@),
                ) is None,
            },
    {
        let ghost p = |b: Option<Binding>| is_listed(b, namespace_root@, prefix@);
        let ns_h: u64 = fnv1a64(namespace_root);
        let mut i: usize = cursor;
        while i < N
            invariant
                self.wf(),
                i <= N || i == cursor,
                ns_h == loam_hash::fnv(namespace_root@),
                p == (|b: Option<Binding>| is_listed(b, namespace_root@, prefix@)),
                first_where(self@.slots, cursor as int, p) == first_where(self@.slots, i as int, p),
            decreases N - i,
        {
            assert(self@.slots[i as int] == self.slots@[i as int]@);
            let s: &BindingSlot = &self.slots[i];
            if s.occupied && s.kind != KIND_TOMBSTONE && s.namespace_hash == ns_h
                && bytes::bytes_equal(s.root(), namespace_root) && bytes::starts_with(s.path(), prefix) {
                return Some(i);
            }
            i += 1;
        }
        None
    }

    /// One page of the bindings under `namespace_root` whose path begins with
    /// `prefix`: their slot numbers in order, at most `max` of them, and where to
    /// go on, or `None` once every slot has been looked at.
    pub fn list_page_prefixed(&self, namespace_root: &[u8], prefix: &[u8], cursor: u32, max: usize) -> (r: (
        Vec<usize>,
        Option<u32>,
    ))
        requires
            self.wf(),
            N <= u32::MAX,
        ensures
            ({
                let want = page(
                    self@.slots,
                    cursor as int,
                    max as int,
                    |b: Option<Binding>| is_listed(b, namespace_root@, prefix@),
                );
                &&& numbers(r.0@) == want.0
                &&& match want.1 {
                    Some(i) => r.1 == Some(i as u32),
                    None => r.1 is None,
                }
            }),
    {
        let ghost p = |b: Option<Binding>| is_listed(b, namespace_root@, prefix@);
        let ghost all = page(self@.slots, cursor as int, max as int, p);
        let ns_h: u64 = fnv1a64(namespace_root);
        let mut found: Vec<usize> = Vec::new();
        let mut idx: usize = cursor as usize;
        assert(numbers(found@) + all.0 =~= all.0);
        while idx < N
            invariant
                self.wf(),
                N <= u32::MAX,
                found.len() <= max,
                ns_h == loam_hash::fnv(namespace_root@),
                p == (|b: Option<Binding>| is_listed(b, namespace_root@, prefix@)),
                all == page(self@.slots, cursor as int, max as int, p),
                all.0 == numbers(found@) + page(self@.slots, idx as int, max - found.len(), p).0,
                all.1 == page(self@.slots, idx as int, max - found.len(), p).1,
            decreases N - idx,
        {
            if found.len() >= max {
                assert(all.0 =~= numbers(found@));
                return (found, Some(idx as u32));
            }
            assert(self@.slots[idx as int] == self.slots@[idx as int]@);
            let s: &BindingSlot = &self.slots[idx];
            if s.occupied && s.kind != KIND_TOMBSTONE && s.namespace_hash == ns_h
                && bytes::bytes_equal(s.root(), namespace_root) && bytes::starts_with(s.path(), prefix) {
                let ghost before = found@;
                found.push(idx);
                assert(numbers(found@) =~= numbers(before) + seq![idx as int]);
                assert(all.0 =~= numbers(found@) + page(self@.slots, idx + 1, max - found.len(), p).0);
            }
            idx += 1;
        }
        assert(all.0 =~= numbers(found@));
        (found, None)
    }

    /// Where to go on behind a page of which a taker took the first `taken` and refused the
    /// rest: at the first that was refused, which may be slot 0.
    pub fn resume_at(found: &[usize], next: Option<u32>, taken: usize) -> (r: Option<u32>)
        requires
            forall|k: int| 0 <= k < found@.len() ==> #[trigger] found@[k] < N,
            N <= u32::MAX,
        ensures
            r == if taken < found@.len() {
                Some(found@[taken as int] as u32)
            } else {
                next
            },
    {
        if taken < found.len() {
            Some(found[taken] as u32)
        } else {
            next
        }
    }

    /// One page of the bindings under `namespace_root`, and the cursor to go on
    /// with, zero at the end.
    pub fn list_page(&self, namespace_root: &[u8], cursor: u32, max: usize) -> (r: (Vec<usize>, u32))
        requires
            self.wf(),
            N <= u32::MAX,
        ensures
            ({
                let want = page(
                    self@.slots,
                    cursor as int,
                    max as int,
                    |b: Option<Binding>| is_listed(b, namespace_root@, Seq::empty()),
                );
                &&& numbers(r.0@) == want.0
                &&& r.1 == (match want.1 {
                    Some(i) => i,
                    None => 0,
                })
            }),
    {
        let none: [u8; 0] = [];
        let prefix: &[u8] = none.as_slice();
        assert(prefix@ =~= Seq::<u8>::empty());
        let (found, next) = self.list_page_prefixed(namespace_root, prefix, cursor, max);
        proof {
            lemma_page(self@.slots, cursor as int, max as int, |b: Option<Binding>| is_listed(b, namespace_root@, prefix@));
        }
        match next {
            Some(i) => (found, i),
            None => (found, 0),
        }
    }

    /// The occupied slot with the smallest key hashes above `after`, the first of
    /// them where several have the same.
    pub fn min_key_above(&self, after: Option<(u64, u64)>) -> (r: Option<(usize, (u64, u64))>)
        requires
            self.wf(),
        ensures
            match r {
                Some((i, key)) => {
                    &&& i < N
                    &&& is_above(self@.slots[i as int], after)
                    &&& key == hashes(self@.slots[i as int].unwrap())
                    &&& forall|j: int|
                        0 <= j < N && is_above(#[trigger] self@.slots[j], after) ==> before_or_at(
                            key,
                            hashes(self@.slots[j].unwrap()),
                        ) && (j < i ==> hashes(self@.slots[j].unwrap()) != key)
                },
                None => forall|j: int| 0 <= j < N ==> !is_above(#[trigger] self@.slots[j], after),
            },
    {
        let mut best: Option<(usize, (u64, u64))> = None;
        let mut i: usize = 0;
        while i < N
            invariant
                i <= N,
                self.wf(),
                match best {
                    Some((b, key)) => {
                        &&& b < i
                        &&& is_above(self@.slots[b as int], after)
                        &&& key == hashes(self@.slots[b as int].unwrap())
                        &&& forall|j: int|
                            0 <= j < i && is_above(#[trigger] self@.slots[j], after) ==> before_or_at(
                                key,
                                hashes(self@.slots[j].unwrap()),
                            ) && (j < b ==> hashes(self@.slots[j].unwrap()) != key)
                    },
                    None => forall|j: int| 0 <= j < i ==> !is_above(#[trigger] self@.slots[j], after),
                },
            decreases N - i,
        {
            assert(self@.slots[i as int] == self.slots@[i as int]@);
            let s: &BindingSlot = &self.slots[i];
            if s.occupied {
                let key: (u64, u64) = (s.namespace_hash, s.path_hash);
                let above: bool = match after {
                    Some(a) => !pair_le(key, a),
                    None => true,
                };
                if above {
                    let better: bool = match best {
                        Some((_, bk)) => !pair_le(bk, key),
                        None => true,
                    };
                    if better {
                        best = Some((i, key));
                    }
                }
            }
            i += 1;
        }
        best
    }

    /// The occupied slot that comes next behind `after` in the order of key hashes, and of
    /// slots where several keys have the same hashes.
    pub fn next_in_order(&self, after: Option<((u64, u64), usize)>) -> (r: Option<(usize, (u64, u64))>)
        requires
            self.wf(),
        ensures
            match r {
                Some((i, key)) => {
                    &&& i < N
                    &&& is_behind(self@.slots[i as int], i as int, after)
                    &&& key == hashes(self@.slots[i as int].unwrap())
                    &&& forall|j: int|
                        0 <= j < N && is_behind(#[trigger] self@.slots[j], j, after) ==> before_or_at(
                            key,
                            hashes(self@.slots[j].unwrap()),
                        ) && (j < i ==> hashes(self@.slots[j].unwrap()) != key)
                },
                None => forall|j: int| 0 <= j < N ==> !is_behind(#[trigger] self@.slots[j], j, after),
            },
    {
        let mut best: Option<(usize, (u64, u64))> = None;
        let mut i: usize = 0;
        while i < N
            invariant
                i <= N,
                self.wf(),
                match best {
                    Some((b, key)) => {
                        &&& b < i
                        &&& is_behind(self@.slots[b as int], b as int, after)
                        &&& key == hashes(self@.slots[b as int].unwrap())
                        &&& forall|j: int|
                            0 <= j < i && is_behind(#[trigger] self@.slots[j], j, after) ==> before_or_at(
                                key,
                                hashes(self@.slots[j].unwrap()),
                            ) && (j < b ==> hashes(self@.slots[j].unwrap()) != key)
                    },
                    None => forall|j: int| 0 <= j < i ==> !is_behind(#[trigger] self@.slots[j], j, after),
                },
            decreases N - i,
        {
            assert(self@.slots[i as int] == self.slots@[i as int]@);
            let s: &BindingSlot = &self.slots[i];
            if s.occupied {
                let key: (u64, u64) = (s.namespace_hash, s.path_hash);
                let above: bool = match after {
                    Some((a, at)) => !pair_le(key, a) || (key.0 == a.0 && key.1 == a.1 && at < i),
                    None => true,
                };
                if above {
                    let better: bool = match best {
                        Some((_, bk)) => !pair_le(bk, key),
                        None => true,
                    };
                    if better {
                        best = Some((i, key));
                    }
                }
            }
            i += 1;
        }
        best
    }
}

/// The numbers in a vector of slot numbers.
pub open spec fn numbers(v: Seq<usize>) -> Seq<int> {
    Seq::new(v.len(), |i: int| v[i] as int)
}

/// The hashes of a binding's key.
pub open spec fn hashes(b: Binding) -> (u64, u64) {
    (loam_hash::fnv(b.root), loam_hash::fnv(b.path))
}

/// `a` is not behind `b` in the order by first, then second hash.
pub open spec fn before_or_at(a: (u64, u64), b: (u64, u64)) -> bool {
    a.0 < b.0 || (a.0 == b.0 && a.1 <= b.1)
}

/// The slot is occupied, and its key hashes are above `after`.
pub open spec fn is_above(b: Option<Binding>, after: Option<(u64, u64)>) -> bool {
    b matches Some(x) && (after matches Some(a) ==> !before_or_at(hashes(x), a))
}

/// The slot is occupied, and comes behind `after` in the order of key hashes, and of
/// slots where keys have the same hashes.
pub open spec fn is_behind(b: Option<Binding>, i: int, after: Option<((u64, u64), usize)>) -> bool {
    b matches Some(x) && (after matches Some((h, at)) ==> !before_or_at(hashes(x), h) || (hashes(x) == h && at < i))
}

/// Whether `a` is not behind `b`.
pub fn pair_le(a: (u64, u64), b: (u64, u64)) -> (r: bool)
    ensures
        r == before_or_at(a, b),
{
    a.0 < b.0 || (a.0 == b.0 && a.1 <= b.1)
}

impl<const N: usize> Default for PicNamespaceState<N> {
    fn default() -> (r: Self)
        ensures
            r.wf(),
            r@ == (Arena {
                slots: Seq::new(N as nat, |i: int| None::<Binding>),
                change_seq: 0,
                change_horizon: 0,
            }),
    {
        Self::new()
    }
}

/// A page goes on inside the table, behind where it began.
pub proof fn lemma_page(s: Seq<Option<Binding>>, from: int, max: int, p: spec_fn(Option<Binding>) -> bool)
    requires
        0 <= from,
    ensures
        page(s, from, max, p).1 matches Some(c) ==> from <= c < s.len() && (max > 0 ==> from < c),
        page(s, from, max, p).0.len() <= if max > 0 {
            max
        } else {
            0
        },
    decreases s.len() - from,
{
    if from < s.len() && max > 0 {
        if p(s[from]) {
            lemma_page(s, from + 1, max - 1, p);
        } else {
            lemma_page(s, from + 1, max, p);
        }
    }
}

/// What `first_where` finds.
pub proof fn lemma_first_where(s: Seq<Option<Binding>>, from: int, p: spec_fn(Option<Binding>) -> bool)
    requires
        0 <= from,
    ensures
        match first_where(s, from, p) {
            Some(i) => from <= i < s.len() && p(s[i]) && forall|j: int| from <= j < i ==> !p(#[trigger] s[j]),
            None => forall|j: int| from <= j < s.len() ==> !p(#[trigger] s[j]),
        },
    decreases s.len() - from,
{
    if from < s.len() && !p(s[from]) {
        lemma_first_where(s, from + 1, p);
        assert forall|j: int| from <= j < s.len() && (first_where(s, from, p) matches Some(i) ==> j < i) implies !p(
            #[trigger] s[j],
        ) by {
            if j == from {
            } else {
                assert(from + 1 <= j);
            }
        }
    }
}

} // verus!
