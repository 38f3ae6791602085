//! What holds of the binding table across operations.
use crate::loam_hash;
use crate::namespace_pic_state;
use crate::namespace_pic_state::{ApplyError, ApplyOk, Arena, Binding, KIND_TOMBSTONE};
use vstd::prelude::*;

verus! {

proof fn lemma_first_where_update(
    s: Seq<Option<Binding>>,
    from: int,
    i: int,
    b: Option<Binding>,
    p: spec_fn(Option<Binding>) -> bool,
)
    requires
        0 <= from,
        0 <= i < s.len(),
        !p(s[i]),
        !p(b),
    ensures
        namespace_pic_state::first_where(s.update(i, b), from, p) == namespace_pic_state::first_where(s, from, p),
    decreases s.len() - from,
{
    if from < s.len() && !p(s[from]) {
        lemma_first_where_update(s, from + 1, i, b, p);
    }
}

/// Whatever slot holds a key, that slot is the one found.
pub proof fn lemma_found(a: Arena, root: Seq<u8>, path: Seq<u8>, i: int)
    requires
        a.wf(),
        0 <= i < a.slots.len(),
        namespace_pic_state::has_key(a.slots[i], root, path),
    ensures
        a.find(root, path) == Some(i),
        a.get(root, path) == a.slots[i],
{
    let p = |b: Option<Binding>| namespace_pic_state::has_key(b, root, path);
    namespace_pic_state::lemma_first_where(a.slots, 0, p);
    let found = namespace_pic_state::first_where(a.slots, 0, p);
    assert(p(a.slots[i]));
    assert(found.is_some());
    let j = found.unwrap();
    assert(namespace_pic_state::has_key(a.slots[j], root, path));
    if j < i {
        assert(a.slots[j].unwrap().root == a.slots[i].unwrap().root);
    } else if i < j {
        assert(a.slots[i].unwrap().root == a.slots[j].unwrap().root);
    }
}

/// A found slot holds the key.
pub proof fn lemma_find_holds(a: Arena, root: Seq<u8>, path: Seq<u8>)
    ensures
        a.find(root, path) matches Some(i) ==> 0 <= i < a.slots.len() && namespace_pic_state::has_key(
            a.slots[i],
            root,
            path,
        ),
        a.find(root, path) is None ==> forall|j: int|
            0 <= j < a.slots.len() ==> !namespace_pic_state::has_key(#[trigger] a.slots[j], root, path),
{
    namespace_pic_state::lemma_first_where(
        a.slots,
        0,
        |b: Option<Binding>| namespace_pic_state::has_key(b, root, path),
    );
}

/// A key that is found bound is found in the same slot as the key itself.
pub proof fn lemma_find_live_is_find(a: Arena, root: Seq<u8>, path: Seq<u8>)
    requires
        a.wf(),
    ensures
        a.find_live(root, path) matches Some(i) ==> 0 <= i < a.slots.len() && namespace_pic_state::has_live_key(
            a.slots[i],
            root,
            path,
        ) && a.find(root, path) == Some(i),
{
    namespace_pic_state::lemma_first_where(
        a.slots,
        0,
        |b: Option<Binding>| namespace_pic_state::has_live_key(b, root, path),
    );
    if let Some(i) = a.find_live(root, path) {
        lemma_found(a, root, path, i);
    }
}

/// Changing one slot leaves every key that neither its old nor its new content has.
pub proof fn lemma_other_slot(a: Arena, i: int, b: Option<Binding>, root: Seq<u8>, path: Seq<u8>)
    requires
        0 <= i < a.slots.len(),
        !namespace_pic_state::has_key(a.slots[i], root, path),
        !namespace_pic_state::has_key(b, root, path),
    ensures
        a.put(i, b).get(root, path) == a.get(root, path),
        a.changed(i, b).get(root, path) == a.get(root, path),
{
    let p = |x: Option<Binding>| namespace_pic_state::has_key(x, root, path);
    lemma_first_where_update(a.slots, 0, i, b, p);
    lemma_find_holds(a, root, path);
    assert(a.put(i, b).find(root, path) == a.find(root, path));
    assert(a.changed(i, b).find(root, path) == a.find(root, path));
    if let Some(j) = a.find(root, path) {
        assert(j != i);
    }
}

proof fn lemma_free(a: Arena)
    ensures
        a.find_free() matches Some(i) ==> 0 <= i < a.slots.len() && a.slots[i] is None,
        a.find_free() is None ==> forall|j: int| 0 <= j < a.slots.len() ==> (#[trigger] a.slots[j]).is_some(),
{
    namespace_pic_state::lemma_first_where(a.slots, 0, |b: Option<Binding>| b is None);
}

/// A successful bind is what a lookup then finds: the object, its kind and the revision.
pub proof fn lemma_bind_then_lookup(a: Arena, root: Seq<u8>, path: Seq<u8>, object_id: Seq<u8>, kind: u8, revision: u64)
    requires
        a.wf(),
        a.bind(root, path, object_id, kind, revision).1 is Ok,
    ensures
        a.bind(root, path, object_id, kind, revision).0.wf(),
        a.bind(root, path, object_id, kind, revision).0.get(root, path) matches Some(b) && b.revision == revision
            && namespace_pic_state::same_object(b, loam_hash::fnv(object_id), object_id, kind),
{
    lemma_find_holds(a, root, path);
    lemma_free(a);
    let after = a.bind(root, path, object_id, kind, revision).0;
    match a.find(root, path) {
        Some(i) => {
            assert(after.wf());
            lemma_found(after, root, path, i);
        },
        None => {
            let i = a.find_free().unwrap();
            assert(after.wf());
            lemma_found(after, root, path, i);
        },
    }
}

/// A bind touches no other key.
pub proof fn lemma_bind_others(
    a: Arena,
    root: Seq<u8>,
    path: Seq<u8>,
    object_id: Seq<u8>,
    kind: u8,
    revision: u64,
    other_root: Seq<u8>,
    other_path: Seq<u8>,
)
    requires
        a.wf(),
        other_root != root || other_path != path,
    ensures
        a.bind(root, path, object_id, kind, revision).0.get(other_root, other_path) == a.get(other_root, other_path),
{
    lemma_find_holds(a, root, path);
    lemma_free(a);
    let after = a.bind(root, path, object_id, kind, revision).0;
    match a.find(root, path) {
        Some(i) => {
            if after.slots != a.slots {
                lemma_other_slot(a, i, after.slots[i], other_root, other_path);
                assert(after == a.changed(i, after.slots[i]));
            }
        },
        None => {
            if let Some(i) = a.find_free() {
                if after.slots != a.slots {
                    lemma_other_slot(a, i, after.slots[i], other_root, other_path);
                    assert(after == a.changed(i, after.slots[i]));
                }
            }
        },
    }
}

/// No bind moves a binding back to a lower revision, in whatever order binds
/// arrive again.
pub proof fn lemma_bind_never_regresses(
    a: Arena,
    root: Seq<u8>,
    path: Seq<u8>,
    object_id: Seq<u8>,
    kind: u8,
    revision: u64,
)
    requires
        a.wf(),
        a.get(root, path).is_some(),
    ensures
        a.bind(root, path, object_id, kind, revision).0.get(root, path) matches Some(b) && b.revision >= a.get(
            root,
            path,
        ).unwrap().revision,
{
    lemma_find_holds(a, root, path);
    let after = a.bind(root, path, object_id, kind, revision).0;
    let i = a.find(root, path).unwrap();
    if after.slots != a.slots {
        assert(after.wf());
        lemma_found(after, root, path, i);
    }
}

/// The same bind again succeeds and changes nothing.
pub proof fn lemma_bind_again(a: Arena, root: Seq<u8>, path: Seq<u8>, object_id: Seq<u8>, kind: u8, revision: u64)
    requires
        a.wf(),
        a.bind(root, path, object_id, kind, revision).1 is Ok,
    ensures
        ({
            let first = a.bind(root, path, object_id, kind, revision);
            first.0.bind(root, path, object_id, kind, revision) == first
        }),
{
    lemma_bind_then_lookup(a, root, path, object_id, kind, revision);
    let first = a.bind(root, path, object_id, kind, revision);
    lemma_find_holds(first.0, root, path);
}

/// A locked binding is neither rebound to another object, nor moved, nor
/// deleted, nor evicted.
pub proof fn lemma_lock_holds(
    a: Arena,
    root: Seq<u8>,
    path: Seq<u8>,
    object_id: Seq<u8>,
    kind: u8,
    revision: u64,
    to: Seq<u8>,
)
    requires
        a.wf(),
        a.get(root, path) matches Some(b) && b.locked != 0,
    ensures
        a.unbind(root, path) == (a, Err::<ApplyOk, ApplyError>(ApplyError::Locked)),
        a.tombstone(root, path, revision) == (a, Err::<ApplyOk, ApplyError>(ApplyError::Locked)),
        a.rename(root, path, to, revision).0 == a,
        a.rename(root, path, to, revision).1 is Err,
        !namespace_pic_state::same_object(a.get(root, path).unwrap(), loam_hash::fnv(object_id), object_id, kind)
            ==> a.bind(root, path, object_id, kind, revision).0 == a && a.bind(
            root,
            path,
            object_id,
            kind,
            revision,
        ).1 is Err,
        a.evict().0.get(root, path) == a.get(root, path),
{
    lemma_find_holds(a, root, path);
    let i = a.find(root, path).unwrap();
    assert(a.slots[i].is_some());
    let p = |b: Option<Binding>| namespace_pic_state::is_evictable(b);
    namespace_pic_state::lemma_first_where(a.slots, 0, p);
    if let Some(e) = namespace_pic_state::first_where(a.slots, 0, p) {
        assert(e != i);
        if namespace_pic_state::has_key(a.slots[e], root, path) {
            lemma_found(a, root, path, e);
        }
        lemma_other_slot(a, e, None, root, path);
        let rev = a.slots[e].unwrap().change_rev;
        assert(a.put(e, None).forgot(rev).find(root, path) == a.put(e, None).find(root, path));
    }
}

/// A successful rename moves the binding: the new path has all that the old path
/// had, under the new revision, and the old path has nothing.
pub proof fn lemma_rename_moves(a: Arena, root: Seq<u8>, from: Seq<u8>, to: Seq<u8>, new_revision: u64)
    requires
        a.wf(),
        a.rename(root, from, to, new_revision).1 is Ok,
    ensures
        a.rename(root, from, to, new_revision).0.wf(),
        a.get(root, from).is_some(),
        a.rename(root, from, to, new_revision).0.get(root, to) == Some(
            Binding {
                path: to,
                revision: new_revision,
                snapshotted: 0,
                emitted_tag: 0,
                change_rev: a.next_seq(),
                ..a.get(root, from).unwrap()
            },
        ),
        a.rename(root, from, to, new_revision).0.get(root, from) is None,
{
    lemma_find_holds(a, root, from);
    lemma_find_holds(a, root, to);
    let after = a.rename(root, from, to, new_revision).0;
    let i = a.find(root, from).unwrap();
    assert(after.wf());
    lemma_found(after, root, to, i);
    lemma_find_holds(after, root, from);
    if let Some(j) = after.find(root, from) {
        assert(j != i);
        lemma_found(a, root, from, j);
    }
}

/// After a deletion that frees the slot the key has nothing; after one that
/// leaves a mark the key has the mark.
pub proof fn lemma_deletions(a: Arena, root: Seq<u8>, path: Seq<u8>, revision: u64)
    requires
        a.wf(),
    ensures
        a.unbind(root, path).1 is Ok ==> a.unbind(root, path).0.get(root, path) is None,
        a.tombstone(root, path, revision).1 is Ok ==> a.tombstone(root, path, revision).0.wf(),
        a.tombstone(root, path, revision).1 is Ok ==> (a.tombstone(root, path, revision).0.get(
            root,
            path,
        ) matches Some(b) && b.kind == KIND_TOMBSTONE && b.revision == revision && b.object_id.len() == 0),
{
    lemma_find_holds(a, root, path);
    lemma_free(a);
    if a.unbind(root, path).1 is Ok {
        let after = a.unbind(root, path).0;
        let i = a.find(root, path).unwrap();
        lemma_find_holds(after, root, path);
        if let Some(j) = after.find(root, path) {
            assert(j != i);
            lemma_found(a, root, path, j);
        }
    }
    if a.tombstone(root, path, revision).1 is Ok {
        let after = a.tombstone(root, path, revision).0;
        assert(after.wf());
        match a.find(root, path) {
            Some(i) => lemma_found(after, root, path, i),
            None => lemma_found(after, root, path, a.find_free().unwrap()),
        }
    }
}

/// Renames and deletions touch no other key.
pub proof fn lemma_moves_others(
    a: Arena,
    root: Seq<u8>,
    from: Seq<u8>,
    to: Seq<u8>,
    revision: u64,
    other_root: Seq<u8>,
    other_path: Seq<u8>,
)
    requires
        a.wf(),
        other_root != root || (other_path != from && other_path != to),
    ensures
        a.rename(root, from, to, revision).0.get(other_root, other_path) == a.get(other_root, other_path),
        a.unbind(root, from).0.get(other_root, other_path) == a.get(other_root, other_path),
        a.tombstone(root, from, revision).0.get(other_root, other_path) == a.get(other_root, other_path),
{
    lemma_find_holds(a, root, from);
    lemma_find_holds(a, root, to);
    lemma_free(a);
    let renamed = a.rename(root, from, to, revision).0;
    let gone = a.unbind(root, from).0;
    let marked = a.tombstone(root, from, revision).0;
    if let Some(i) = a.find(root, from) {
        lemma_other_slot(a, i, renamed.slots[i], other_root, other_path);
        lemma_other_slot(a, i, gone.slots[i], other_root, other_path);
        lemma_other_slot(a, i, marked.slots[i], other_root, other_path);
    } else if let Some(i) = a.find_free() {
        lemma_other_slot(a, i, marked.slots[i], other_root, other_path);
    }
}

/// What an eviction frees is covered by the snapshot, unlocked and no deletion;
/// and the table admits that it can no longer account for that change.
pub proof fn lemma_evict_is_safe(a: Arena)
    requires
        a.evict().1,
    ensures
        exists|i: int|
            0 <= i < a.slots.len() && #[trigger] namespace_pic_state::is_evictable(a.slots[i]) && a.evict().0.slots
                == a.slots.update(i, None) && a.evict().0.change_horizon >= a.slots[i].unwrap().change_rev,
        a.evict().0.change_horizon >= a.change_horizon,
        a.evict().0.change_seq == a.change_seq,
{
    let p = |b: Option<Binding>| namespace_pic_state::is_evictable(b);
    namespace_pic_state::lemma_first_where(a.slots, 0, p);
    let i = namespace_pic_state::first_where(a.slots, 0, p).unwrap();
    assert(namespace_pic_state::is_evictable(a.slots[i]));
}

/// Every resident change is at or below the newest position, and so is what was forgotten.
pub open spec fn stamped(a: Arena) -> bool {
    &&& a.change_horizon <= a.change_seq
    &&& forall|i: int|
        0 <= i < a.slots.len() && (#[trigger] a.slots[i]).is_some() ==> a.slots[i].unwrap().change_rev <= a.change_seq
}

/// The change stream stays in order under every operation, as long as its
/// counter has not run out.
pub proof fn lemma_stream_in_order(
    a: Arena,
    root: Seq<u8>,
    path: Seq<u8>,
    other: Seq<u8>,
    kind: u8,
    n: u64,
    tag: u8,
    flag: bool,
)
    requires
        a.wf(),
        stamped(a),
        a.change_seq < u64::MAX,
    ensures
        stamped(a.bind(root, path, other, kind, n).0),
        stamped(a.rename(root, path, other, n).0),
        stamped(a.tombstone(root, path, n).0),
        stamped(a.unbind(root, path).0),
        stamped(a.set_expiry(root, path, n).0),
        stamped(a.set_lock(root, path, flag).0),
        stamped(a.evict().0),
        stamped(a.finalize(tag)),
{
    lemma_find_holds(a, root, path);
    lemma_find_live_is_find(a, root, path);
    lemma_free(a);
    let p = |b: Option<Binding>| namespace_pic_state::is_evictable(b);
    namespace_pic_state::lemma_first_where(a.slots, 0, p);
    assert(a.next_seq() == a.change_seq + 1);
    lemma_newest_dropped(a, tag, a.slots.len());
}

proof fn lemma_newest_dropped(a: Arena, tag: u8, n: nat)
    requires
        stamped(a),
        n <= a.slots.len(),
    ensures
        a.newest_dropped(tag, n) <= a.change_seq,
        forall|i: int|
            0 <= i < n && (#[trigger] a.slots[i]).is_some() && a.slots[i].unwrap().emitted_tag == tag
                && a.slots[i].unwrap().kind == KIND_TOMBSTONE ==> a.slots[i].unwrap().change_rev
                <= a.newest_dropped(tag, n),
    decreases n,
{
    if n > 0 {
        lemma_newest_dropped(a, tag, (n - 1) as nat);
        assert(a.slots[n - 1].is_some() ==> a.slots[n - 1].unwrap().change_rev <= a.change_seq);
    }
}

/// A finished compaction drops a deletion only together with the claim to know
/// its change, and leaves alone every slot that it did not merge or that has
/// changed since.
pub proof fn lemma_finalize_is_honest(a: Arena, tag: u8, i: int)
    requires
        stamped(a),
        0 <= i < a.slots.len(),
    ensures
        a.slots[i].is_some() && a.finalize(tag).slots[i] is None ==> a.finalize(tag).change_horizon
            >= a.slots[i].unwrap().change_rev,
        a.slots[i].is_some() && a.slots[i].unwrap().emitted_tag != tag ==> a.finalize(tag).slots[i] == a.slots[i],
{
    lemma_newest_dropped(a, tag, a.slots.len());
}

/// What every key stands for: an object and its kind, or nothing.
pub type Standing = spec_fn(Seq<u8>, Seq<u8>) -> Option<(Seq<u8>, u8)>;

/// What a key stands for, where `disk` says what a snapshot holds of it.
pub open spec fn seen(
    a: Arena,
    disk: Standing,
    root: Seq<u8>,
    path: Seq<u8>,
) -> Option<(Seq<u8>, u8)> {
    match a.get(root, path) {
        Some(b) => if b.kind == KIND_TOMBSTONE {
            None
        } else {
            Some((b.object_id, b.kind))
        },
        None => disk(root, path),
    }
}

/// The table can tell what became of every key since the time when the keys stood for
/// `past`: where a key stands for something else now, a slot of the key carries a
/// change behind `since`. Behind the horizon nothing is claimed.
pub open spec fn tells(
    a: Arena,
    disk: Standing,
    past: Standing,
    since: u64,
) -> bool {
    since < a.change_horizon || forall|root: Seq<u8>, path: Seq<u8>|
        #[trigger] seen(a, disk, root, path) == past(root, path) || (a.get(root, path) matches Some(b) && b.change_rev
            > since)
}

/// Every slot that may be dropped is on disk as it stands.
pub open spec fn covered(a: Arena, disk: Standing) -> bool {
    forall|i: int|
        0 <= i < a.slots.len() && #[trigger] namespace_pic_state::is_evictable(a.slots[i]) ==> disk(
            a.slots[i].unwrap().root,
            a.slots[i].unwrap().path,
        ) == Some((a.slots[i].unwrap().object_id, a.slots[i].unwrap().kind))
}

/// What was true of a position stays true: no operation makes a window that is still
/// answered leave out a change.
pub proof fn lemma_windows_are_honest(
    a: Arena,
    disk: Standing,
    past: Standing,
    since: u64,
    root: Seq<u8>,
    path: Seq<u8>,
    other: Seq<u8>,
    kind: u8,
    n: u64,
    flag: bool,
)
    requires
        a.wf(),
        a.change_seq < u64::MAX,
        since <= a.change_seq,
        tells(a, disk, past, since),
    ensures
        tells(a.bind(root, path, other, kind, n).0, disk, past, since),
        tells(a.rename(root, path, other, n).0, disk, past, since),
        tells(a.tombstone(root, path, n).0, disk, past, since),
        tells(a.unbind(root, path).0, disk, past, since),
        tells(a.set_expiry(root, path, n).0, disk, past, since),
        tells(a.set_lock(root, path, flag).0, disk, past, since),
        covered(a, disk) ==> tells(a.evict().0, disk, past, since),
{
    assert(a.next_seq() == a.change_seq + 1);
    if since >= a.change_horizon {
        lemma_bind_tells(a, disk, past, since, root, path, other, kind, n);
        lemma_tombstone_tells(a, disk, past, since, root, path, n);
        lemma_notes_tell(a, disk, past, since, root, path, n, flag);
        if covered(a, disk) {
            lemma_evict_tells(a, disk, past, since);
        }
    } else {
        lemma_find_live_is_find(a, root, path);
    }
}

proof fn lemma_bind_tells(
    a: Arena,
    disk: Standing,
    past: Standing,
    since: u64,
    root: Seq<u8>,
    path: Seq<u8>,
    object_id: Seq<u8>,
    kind: u8,
    n: u64,
)
    requires
        a.wf(),
        a.change_horizon <= since <= a.change_seq < u64::MAX,
        tells(a, disk, past, since),
    ensures
        tells(a.bind(root, path, object_id, kind, n).0, disk, past, since),
{
    let after = a.bind(root, path, object_id, kind, n).0;
    if after != a {
        assert(a.next_seq() == a.change_seq + 1);
        lemma_bind_then_lookup(a, root, path, object_id, kind, n);
        lemma_find_holds(a, root, path);
        lemma_free(a);
        let i = match a.find(root, path) {
            Some(i) => i,
            None => a.find_free().unwrap(),
        };
        lemma_found(after, root, path, i);
        assert forall|r: Seq<u8>, p: Seq<u8>|
            #[trigger] seen(after, disk, r, p) == past(r, p) || (after.get(r, p) matches Some(b) && b.change_rev
                > since) by {
            if r != root || p != path {
                lemma_bind_others(a, root, path, object_id, kind, n, r, p);
                assert(seen(a, disk, r, p) == seen(after, disk, r, p));
            }
        }
    }
}

proof fn lemma_tombstone_tells(
    a: Arena,
    disk: Standing,
    past: Standing,
    since: u64,
    root: Seq<u8>,
    path: Seq<u8>,
    n: u64,
)
    requires
        a.wf(),
        a.change_horizon <= since <= a.change_seq < u64::MAX,
        tells(a, disk, past, since),
    ensures
        tells(a.tombstone(root, path, n).0, disk, past, since),
{
    let after = a.tombstone(root, path, n).0;
    if a.tombstone(root, path, n).1 is Ok {
        assert(a.next_seq() == a.change_seq + 1);
        lemma_deletions(a, root, path, n);
        lemma_find_holds(a, root, path);
        lemma_free(a);
        let i = match a.find(root, path) {
            Some(i) => i,
            None => a.find_free().unwrap(),
        };
        lemma_found(after, root, path, i);
        assert forall|r: Seq<u8>, p: Seq<u8>|
            #[trigger] seen(after, disk, r, p) == past(r, p) || (after.get(r, p) matches Some(b) && b.change_rev
                > since) by {
            if r != root || p != path {
                lemma_moves_others(a, root, path, path, n, r, p);
                assert(seen(a, disk, r, p) == seen(after, disk, r, p));
            }
        }
    }
}

/// A note on a binding changes neither what its key stands for nor its place in the
/// change stream.
proof fn lemma_note_tells(
    a: Arena,
    disk: Standing,
    past: Standing,
    since: u64,
    i: int,
    noted: Binding,
)
    requires
        a.wf(),
        0 <= i < a.slots.len(),
        a.slots[i] matches Some(b) && noted == (Binding { expires_at: noted.expires_at, locked: noted.locked, ..b }),
        tells(a, disk, past, since),
    ensures
        tells(a.put(i, Some(noted)), disk, past, since),
{
    let after = a.put(i, Some(noted));
    let b = a.slots[i].unwrap();
    if since >= a.change_horizon {
        assert forall|r: Seq<u8>, p: Seq<u8>|
            #[trigger] seen(after, disk, r, p) == past(r, p) || (after.get(r, p) matches Some(x) && x.change_rev
                > since) by {
            assert(seen(a, disk, r, p) == past(r, p) || (a.get(r, p) matches Some(x) && x.change_rev > since));
            if r == b.root && p == b.path {
                assert(after.wf());
                lemma_found(a, r, p, i);
                lemma_found(after, r, p, i);
            } else {
                lemma_other_slot(a, i, Some(noted), r, p);
            }
        }
    }
}

proof fn lemma_notes_tell(
    a: Arena,
    disk: Standing,
    past: Standing,
    since: u64,
    root: Seq<u8>,
    path: Seq<u8>,
    at: u64,
    flag: bool,
)
    requires
        a.wf(),
        tells(a, disk, past, since),
    ensures
        tells(a.set_expiry(root, path, at).0, disk, past, since),
        tells(a.set_lock(root, path, flag).0, disk, past, since),
{
    lemma_find_live_is_find(a, root, path);
    if let Some(i) = a.find_live(root, path) {
        lemma_note_tells(a, disk, past, since, i, a.set_expiry(root, path, at).0.slots[i].unwrap());
        lemma_note_tells(a, disk, past, since, i, a.set_lock(root, path, flag).0.slots[i].unwrap());
    }
}

proof fn lemma_evict_tells(
    a: Arena,
    disk: Standing,
    past: Standing,
    since: u64,
)
    requires
        a.wf(),
        a.change_horizon <= since,
        covered(a, disk),
        tells(a, disk, past, since),
    ensures
        tells(a.evict().0, disk, past, since),
{
    let q = |b: Option<Binding>| namespace_pic_state::is_evictable(b);
    namespace_pic_state::lemma_first_where(a.slots, 0, q);
    let after = a.evict().0;
    if let Some(e) = namespace_pic_state::first_where(a.slots, 0, q) {
        assert(namespace_pic_state::is_evictable(a.slots[e]));
        let b = a.slots[e].unwrap();
        if since >= after.change_horizon {
            assert forall|r: Seq<u8>, p: Seq<u8>|
                #[trigger] seen(after, disk, r, p) == past(r, p) || (after.get(r, p) matches Some(x) && x.change_rev
                    > since) by {
                assert(seen(a, disk, r, p) == past(r, p) || (a.get(r, p) matches Some(x) && x.change_rev > since));
                assert(after.find(r, p) == a.put(e, None).find(r, p));
                if r == b.root && p == b.path {
                    lemma_found(a, r, p, e);
                    lemma_find_holds(after, r, p);
                    if let Some(j) = after.find(r, p) {
                        assert(j != e);
                        lemma_found(a, r, p, j);
                    }
                } else {
                    lemma_other_slot(a, e, None, r, p);
                }
            }
        }
    }
}

/// Putting a new snapshot in place, which changes no lookup, keeps windows honest too.
pub proof fn lemma_finalize_keeps_windows(
    a: Arena,
    disk: Standing,
    new_disk: Standing,
    past: Standing,
    since: u64,
    tag: u8,
)
    requires
        a.wf(),
        stamped(a),
        tells(a, disk, past, since),
        forall|root: Seq<u8>, path: Seq<u8>|
            #[trigger] seen(a.finalize(tag), new_disk, root, path) == seen(a, disk, root, path),
    ensures
        tells(a.finalize(tag), new_disk, past, since),
{
    let after = a.finalize(tag);
    lemma_newest_dropped(a, tag, a.slots.len());
    if since >= after.change_horizon {
        assert(since >= a.change_horizon);
        assert forall|r: Seq<u8>, p: Seq<u8>|
            #[trigger] seen(after, new_disk, r, p) == past(r, p) || (after.get(r, p) matches Some(x) && x.change_rev
                > since) by {
            assert(seen(a, disk, r, p) == past(r, p) || (a.get(r, p) matches Some(x) && x.change_rev > since));
            lemma_find_holds(a, r, p);
            if let Some(i) = a.find(r, p) {
                if after.slots[i].is_some() {
                    assert(after.wf());
                    lemma_found(after, r, p, i);
                }
            }
        }
    }
}

/// A table knows what its keys stand for now, so from its newest position on it tells
/// everything.
pub proof fn lemma_newest_position_tells(a: Arena, disk: Standing)
    ensures
        tells(a, disk, |root: Seq<u8>, path: Seq<u8>| seen(a, disk, root, path), a.change_seq),
{
}

/// Slot `i` holds nothing else at the position of the change that had made `seen`: where
/// it still carries that position, it holds the same entry.
pub open spec fn pinned(a: Arena, i: int, seen: Binding) -> bool {
    &&& seen.change_rev <= a.change_seq
    &&& 0 <= i < a.slots.len() && a.slots[i].is_some() && a.slots[i].unwrap().change_rev == seen.change_rev
        ==> is_same_entry(a.slots[i].unwrap(), seen)
}

/// The bindings differ in nothing but marks of the table.
pub open spec fn is_same_entry(b: Binding, c: Binding) -> bool {
    b.root == c.root && b.path == c.path && b.object_id == c.object_id && b.kind == c.kind && b.revision == c.revision
}

/// No operation puts another entry in the place of one that was seen without a newer
/// position, as long as the counter of the change stream has not run out.
pub proof fn lemma_pins_hold(
    a: Arena,
    i: int,
    seen: Binding,
    root: Seq<u8>,
    path: Seq<u8>,
    other: Seq<u8>,
    kind: u8,
    n: u64,
    tag: u8,
    flag: bool,
)
    requires
        a.wf(),
        a.change_seq < u64::MAX,
        pinned(a, i, seen),
    ensures
        pinned(a.bind(root, path, other, kind, n).0, i, seen),
        pinned(a.rename(root, path, other, n).0, i, seen),
        pinned(a.tombstone(root, path, n).0, i, seen),
        pinned(a.unbind(root, path).0, i, seen),
        pinned(a.set_expiry(root, path, n).0, i, seen),
        pinned(a.set_lock(root, path, flag).0, i, seen),
        pinned(a.evict().0, i, seen),
        pinned(a.finalize(tag), i, seen),
{
    lemma_find_holds(a, root, path);
    lemma_find_live_is_find(a, root, path);
    lemma_free(a);
    let p = |b: Option<Binding>| namespace_pic_state::is_evictable(b);
    namespace_pic_state::lemma_first_where(a.slots, 0, p);
    assert(a.next_seq() == a.change_seq + 1);
}

/// All indices from `from` on whose elements satisfy `p`.
pub open spec fn all_where(s: Seq<Option<Binding>>, from: int, p: spec_fn(Option<Binding>) -> bool) -> Seq<int>
    decreases s.len() - from,
{
    if from < 0 || from >= s.len() {
        Seq::empty()
    } else if p(s[from]) {
        seq![from] + all_where(s, from + 1, p)
    } else {
        all_where(s, from + 1, p)
    }
}

/// `all_where` holds exactly those indices, in ascending order.
pub proof fn lemma_all_where(s: Seq<Option<Binding>>, from: int, p: spec_fn(Option<Binding>) -> bool)
    requires
        0 <= from,
    ensures
        forall|i: int| all_where(s, from, p).contains(i) <==> from <= i < s.len() && p(s[i]),
        forall|j: int, k: int|
            0 <= j < k < all_where(s, from, p).len() ==> all_where(s, from, p)[j] < all_where(s, from, p)[k],
    decreases s.len() - from,
{
    let all = all_where(s, from, p);
    if from < s.len() {
        lemma_all_where(s, from + 1, p);
        let rest = all_where(s, from + 1, p);
        if p(s[from]) {
            assert forall|i: int| all.contains(i) <==> from <= i < s.len() && p(s[i]) by {
                if i == from {
                    assert(all[0] == i);
                } else if rest.contains(i) {
                    let j = rest.index_of(i);
                    assert(all[j + 1] == i);
                } else if all.contains(i) {
                    let j = all.index_of(i);
                    assert(all[j] == i);
                    assert(rest[j - 1] == i);
                }
            }
            assert forall|j: int, k: int| 0 <= j < k < all.len() implies all[j] < all[k] by {
                assert(all[k] == rest[k - 1]);
                assert(rest.contains(rest[k - 1]));
                if j > 0 {
                    assert(all[j] == rest[j - 1]);
                }
            }
        }
    }
}

/// Pages lose nothing and repeat nothing: a page followed by everything from
/// where it says to go on is everything.
pub proof fn lemma_pages_cover(s: Seq<Option<Binding>>, from: int, max: int, p: spec_fn(Option<Binding>) -> bool)
    requires
        0 <= from,
    ensures
        match namespace_pic_state::page(s, from, max, p).1 {
            Some(c) => all_where(s, from, p) == namespace_pic_state::page(s, from, max, p).0 + all_where(s, c, p),
            None => all_where(s, from, p) == namespace_pic_state::page(s, from, max, p).0,
        },
    decreases s.len() - from,
{
    let got = namespace_pic_state::page(s, from, max, p);
    if from < s.len() && max > 0 {
        if p(s[from]) {
            lemma_pages_cover(s, from + 1, max - 1, p);
            match got.1 {
                Some(c) => {
                    assert(all_where(s, from, p) =~= got.0 + all_where(s, c, p));
                },
                None => {},
            }
        } else {
            lemma_pages_cover(s, from + 1, max, p);
        }
    } else if from < s.len() {
        assert(all_where(s, from, p) =~= got.0 + all_where(s, from, p));
    }
}

/// Pages one after the other, as a caller asks for them that begins at `cursor` and feeds
/// each answer back until it is zero, at most `calls` of them: all that they hold, and
/// whether the last answer was zero.
pub open spec fn walked(
    s: Seq<Option<Binding>>,
    cursor: int,
    max: int,
    p: spec_fn(Option<Binding>) -> bool,
    calls: nat,
) -> (Seq<int>, bool)
    decreases calls,
{
    if calls == 0 {
        (Seq::empty(), false)
    } else {
        let (got, next) = namespace_pic_state::page(s, cursor, max, p);
        let answer = match next {
            Some(c) => c,
            None => 0,
        };
        if answer == 0 {
            (got, true)
        } else {
            let rest = walked(s, answer, max, p, (calls - 1) as nat);
            (got + rest.0, rest.1)
        }
    }
}

proof fn lemma_walked(
    s: Seq<Option<Binding>>,
    cursor: int,
    max: int,
    p: spec_fn(Option<Binding>) -> bool,
    calls: nat,
)
    requires
        0 <= cursor,
        max >= 1,
        calls >= 1,
        calls + cursor > s.len(),
    ensures
        walked(s, cursor, max, p, calls) == (all_where(s, cursor, p), true),
    decreases calls,
{
    lemma_pages_cover(s, cursor, max, p);
    namespace_pic_state::lemma_page(s, cursor, max, p);
    if let Some(c) = namespace_pic_state::page(s, cursor, max, p).1 {
        lemma_walked(s, c, max, p, (calls - 1) as nat);
    }
}

/// A caller that begins at zero and feeds each answer back until it is zero is through
/// after at most one call more than there are slots. It has seen, in slot order, every slot
/// under the root that holds a live path, once each, and no other slot; no call gave more
/// than `max`.
pub proof fn lemma_listing_is_walked_through(a: Arena, root: Seq<u8>, max: int, calls: nat)
    requires
        max >= 1,
        calls > a.slots.len(),
    ensures
        ({
            let p = |b: Option<Binding>| namespace_pic_state::is_listed(b, root, Seq::empty());
            let (seen, done) = walked(a.slots, 0, max, p, calls);
            &&& done
            &&& forall|i: int|
                seen.contains(i) <==> 0 <= i < a.slots.len() && (a.slots[i] matches Some(b) && b.kind != KIND_TOMBSTONE
                    && b.root == root)
            &&& forall|j: int, k: int| 0 <= j < k < seen.len() ==> seen[j] < seen[k]
            &&& forall|c: int| 0 <= c ==> (#[trigger] namespace_pic_state::page(a.slots, c, max, p)).0.len() <= max
        }),
{
    let p = |b: Option<Binding>| namespace_pic_state::is_listed(b, root, Seq::empty());
    lemma_walked(a.slots, 0, max, p, calls);
    lemma_all_where(a.slots, 0, p);
    assert forall|i: int| 0 <= i < a.slots.len() implies p(a.slots[i]) == (a.slots[i] matches Some(b) && b.kind
        != KIND_TOMBSTONE && b.root == root) by {
        if let Some(b) = a.slots[i] {
            assert(b.path.take(0) =~= Seq::<u8>::empty());
            assert(Seq::<u8>::empty().is_prefix_of(b.path));
        }
    }
    assert forall|c: int| 0 <= c implies (#[trigger] namespace_pic_state::page(a.slots, c, max, p)).0.len() <= max by {
        namespace_pic_state::lemma_page(a.slots, c, max, p);
    }
}

/// A caller that begins at zero and feeds each answer back until it is zero is through
/// after at most one call more than there are slots. It has seen, in slot order, every slot
/// whose binding has expired and is not locked, once each, and no other slot; no call gave
/// more than `max`.
pub proof fn lemma_expired_are_walked_through(a: Arena, now: u64, max: int, calls: nat)
    requires
        max >= 1,
        calls > a.slots.len(),
    ensures
        ({
            let p = |b: Option<Binding>| namespace_pic_state::has_expired(b, now);
            let (seen, done) = walked(a.slots, 0, max, p, calls);
            &&& done
            &&& forall|i: int|
                seen.contains(i) <==> 0 <= i < a.slots.len() && (a.slots[i] matches Some(b) && b.kind != KIND_TOMBSTONE
                    && b.locked == 0 && b.expires_at != 0 && b.expires_at <= now)
            &&& forall|j: int, k: int| 0 <= j < k < seen.len() ==> seen[j] < seen[k]
            &&& forall|c: int| 0 <= c ==> (#[trigger] namespace_pic_state::page(a.slots, c, max, p)).0.len() <= max
        }),
{
    let p = |b: Option<Binding>| namespace_pic_state::has_expired(b, now);
    lemma_walked(a.slots, 0, max, p, calls);
    lemma_all_where(a.slots, 0, p);
    assert forall|c: int| 0 <= c implies (#[trigger] namespace_pic_state::page(a.slots, c, max, p)).0.len() <= max by {
        namespace_pic_state::lemma_page(a.slots, c, max, p);
    }
}

/// One page for a taker that may refuse: the indices from `from` on whose elements satisfy
/// `p`, up to `max` of them or to the first that is not taken, and where to go on.
pub open spec fn page_taken(
    s: Seq<Option<Binding>>,
    from: int,
    max: int,
    p: spec_fn(Option<Binding>) -> bool,
    takes: spec_fn(int) -> bool,
) -> (Seq<int>, Option<int>)
    decreases s.len() - from,
{
    if from < 0 || from >= s.len() {
        (Seq::empty(), None)
    } else if max <= 0 || (p(s[from]) && !takes(from)) {
        (Seq::empty(), Some(from))
    } else if p(s[from]) {
        let rest = page_taken(s, from + 1, max - 1, p, takes);
        (seq![from] + rest.0, rest.1)
    } else {
        page_taken(s, from + 1, max, p, takes)
    }
}

/// Pages one after the other, each for another taker and going on where the one before
/// said: all that was taken, and where to go on.
pub open spec fn pages_taken(
    s: Seq<Option<Binding>>,
    from: int,
    p: spec_fn(Option<Binding>) -> bool,
    takers: Seq<(int, spec_fn(int) -> bool)>,
) -> (Seq<int>, Option<int>)
    decreases takers.len(),
{
    if takers.len() == 0 {
        (Seq::empty(), Some(from))
    } else {
        let (got, next) = page_taken(s, from, takers[0].0, p, takers[0].1);
        match next {
            None => (got, None),
            Some(c) => {
                let rest = pages_taken(s, c, p, takers.skip(1));
                (got + rest.0, rest.1)
            },
        }
    }
}

/// A page for a taker, followed by everything from where it says to go on, is everything.
/// A taker that refuses nothing gets an ordinary page.
pub proof fn lemma_page_taken(
    s: Seq<Option<Binding>>,
    from: int,
    max: int,
    p: spec_fn(Option<Binding>) -> bool,
    takes: spec_fn(int) -> bool,
)
    requires
        0 <= from,
    ensures
        match page_taken(s, from, max, p, takes).1 {
            Some(c) => from <= c < s.len() && all_where(s, from, p) == page_taken(s, from, max, p, takes).0 + all_where(
                s,
                c,
                p,
            ),
            None => all_where(s, from, p) == page_taken(s, from, max, p, takes).0,
        },
        takes == (|i: int| true) ==> page_taken(s, from, max, p, takes) == namespace_pic_state::page(s, from, max, p),
    decreases s.len() - from,
{
    let got = page_taken(s, from, max, p, takes);
    if from < s.len() {
        if max <= 0 || (p(s[from]) && !takes(from)) {
            assert(all_where(s, from, p) =~= got.0 + all_where(s, from, p));
        } else if p(s[from]) {
            lemma_page_taken(s, from + 1, max - 1, p, takes);
            match got.1 {
                Some(c) => {
                    assert(all_where(s, from, p) =~= got.0 + all_where(s, c, p));
                },
                None => {},
            }
        } else {
            lemma_page_taken(s, from + 1, max, p, takes);
        }
    }
}

/// A page of which a taker took the first `taken` and refused the next is, up to there, the
/// page for that taker, and it goes on at what was refused.
pub proof fn lemma_page_is_cut(
    s: Seq<Option<Binding>>,
    from: int,
    max: int,
    p: spec_fn(Option<Binding>) -> bool,
    takes: spec_fn(int) -> bool,
    taken: int,
)
    requires
        0 <= from,
        ({
            let found = namespace_pic_state::page(s, from, max, p).0;
            &&& 0 <= taken <= found.len()
            &&& forall|k: int| 0 <= k < taken ==> takes(#[trigger] found[k])
            &&& taken < found.len() ==> !takes(found[taken])
        }),
    ensures
        ({
            let whole = namespace_pic_state::page(s, from, max, p);
            page_taken(s, from, max, p, takes) == (
                whole.0.take(taken),
                if taken < whole.0.len() {
                    Some(whole.0[taken])
                } else {
                    whole.1
                },
            )
        }),
    decreases s.len() - from,
{
    let whole = namespace_pic_state::page(s, from, max, p);
    if from < s.len() && max > 0 {
        if p(s[from]) {
            let rest = namespace_pic_state::page(s, from + 1, max - 1, p);
            assert(whole.0[0] == from);
            assert forall|k: int| 0 <= k < rest.0.len() implies #[trigger] rest.0[k] == whole.0[k + 1] by {}
            if taken > 0 {
                assert(takes(whole.0[0]));
                assert forall|k: int| 0 <= k < taken - 1 implies takes(#[trigger] rest.0[k]) by {
                    assert(takes(whole.0[k + 1]));
                }
                lemma_page_is_cut(s, from + 1, max - 1, p, takes, taken - 1);
                assert(whole.0.take(taken) =~= seq![from] + rest.0.take(taken - 1));
            } else {
                assert(whole.0.take(0) =~= Seq::<int>::empty());
            }
        } else {
            lemma_page_is_cut(s, from + 1, max, p, takes, taken);
        }
    } else {
        assert(whole.0.take(taken) =~= Seq::<int>::empty());
    }
}

/// Whatever takers refuse, and wherever pages end on that account, following the cursors
/// gives every entry once and in order: what was taken so far, with everything from where
/// to go on, is everything, and once there is nowhere to go on all of it has been taken.
pub proof fn lemma_refused_pages_cover(
    s: Seq<Option<Binding>>,
    from: int,
    p: spec_fn(Option<Binding>) -> bool,
    takers: Seq<(int, spec_fn(int) -> bool)>,
)
    requires
        0 <= from,
    ensures
        match pages_taken(s, from, p, takers).1 {
            Some(c) => from <= c && all_where(s, from, p) == pages_taken(s, from, p, takers).0 + all_where(s, c, p),
            None => all_where(s, from, p) == pages_taken(s, from, p, takers).0,
        },
    decreases takers.len(),
{
    if takers.len() == 0 {
        assert(all_where(s, from, p) =~= Seq::<int>::empty() + all_where(s, from, p));
    } else {
        lemma_page_taken(s, from, takers[0].0, p, takers[0].1);
        let (got, next) = page_taken(s, from, takers[0].0, p, takers[0].1);
        if let Some(c) = next {
            lemma_refused_pages_cover(s, c, p, takers.skip(1));
            let rest = pages_taken(s, c, p, takers.skip(1));
            match rest.1 {
                Some(d) => {
                    assert(got + rest.0 + all_where(s, d, p) =~= got + (rest.0 + all_where(s, d, p)));
                },
                None => {},
            }
        }
    }
}

/// A bound key is listed under its root, by every prefix of its path.
pub proof fn lemma_bound_is_listed(a: Arena, root: Seq<u8>, path: Seq<u8>, prefix: Seq<u8>)
    requires
        a.wf(),
        prefix.is_prefix_of(path),
        a.get(root, path) matches Some(b) && b.kind != KIND_TOMBSTONE,
    ensures
        all_where(
            a.slots,
            0,
            |b: Option<Binding>| namespace_pic_state::is_listed(b, root, prefix),
        ).contains(a.find(root, path).unwrap()),
{
    lemma_find_holds(a, root, path);
    lemma_all_where(a.slots, 0, |b: Option<Binding>| namespace_pic_state::is_listed(b, root, prefix));
}

} // verus!
