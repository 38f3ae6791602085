//! What a finished merge guarantees.
//!
//! The laws are about a merge during which nothing else changes the table. Keys are told
//! apart by their bytes throughout: that two of them have the same hashes changes nothing.
use crate::loam_hash;
use crate::loam_snapshot;
use crate::loam_snapshot::{Record, Search};
use crate::loam_wire;
use crate::namespace_apply::Table;
use crate::namespace_compact;
use crate::namespace_compact::{Place, Step};
use crate::namespace_pic_state;
use crate::namespace_pic_state::{Arena, Binding};
use crate::namespace_reads;
use vstd::prelude::*;

verus! {

/// No record has smaller key hashes than one before it.
pub open spec fn ordered(records: Seq<Record>) -> bool {
    forall|i: int, j: int|
        #![trigger records[i], records[j]]
        0 <= i < j < records.len() ==> namespace_pic_state::before_or_at(
            namespace_compact::key_of(records[i]),
            namespace_compact::key_of(records[j]),
        )
}

/// The records are of the same key.
pub open spec fn same_key(r: Record, q: Record) -> bool {
    loam_snapshot::record_root(r) == loam_snapshot::record_root(q) && loam_snapshot::record_path(r)
        == loam_snapshot::record_path(q)
}

/// No two records are of the same key.
pub open spec fn unique_keys(records: Seq<Record>) -> bool {
    forall|i: int, j: int|
        #![trigger records[i], records[j]]
        0 <= i < j < records.len() ==> !same_key(records[i], records[j])
}

/// The lengths of a record fit, and its hashes are those of its key.
pub open spec fn is_true(r: Record) -> bool {
    &&& loam_snapshot::lengths_fit(r)
    &&& r.ns_hash == loam_hash::fnv(loam_snapshot::record_root(r))
    &&& r.path_hash == loam_hash::fnv(loam_snapshot::record_path(r))
}

/// The records make a snapshot: in order, one for a key, none of a deletion, and each true.
pub open spec fn is_snapshot(records: Seq<Record>) -> bool {
    &&& ordered(records)
    &&& unique_keys(records)
    &&& forall|i: int|
        0 <= i < records.len() ==> is_true(#[trigger] records[i]) && records[i].kind
            != namespace_pic_state::KIND_TOMBSTONE
}

/// The slot holds a binding that is no deletion.
pub open spec fn is_live(b: Option<Binding>) -> bool {
    b.is_some() && b.unwrap().kind != namespace_pic_state::KIND_TOMBSTONE
}

/// The slot was merged: it is occupied and not behind `last`.
pub open spec fn is_done(b: Option<Binding>, i: int, last: Place) -> bool {
    b.is_some() && !namespace_pic_state::is_behind(b, i, last)
}

/// The record is that of a live binding which was merged.
pub open spec fn from_table(a: Arena, last: Place, r: Record) -> bool {
    exists|i: int|
        0 <= i < a.slots.len() && is_done(#[trigger] a.slots[i], i, last) && is_live(a.slots[i]) && r
            == namespace_compact::record_of(a.slots[i].unwrap())
}

/// The record is one of the first `idx` of the snapshot before, and the table does not
/// hold its key.
pub open spec fn from_old(a: Arena, old: Seq<Record>, idx: int, r: Record) -> bool {
    exists|j: int| 0 <= j < idx && r == #[trigger] old[j] && !namespace_reads::is_shadowed(old[j], a)
}

/// What holds in the course of a merge, once `out` has been written.
pub open spec fn merging(a: Arena, old: Seq<Record>, idx: int, last: Place, out: Seq<Record>) -> bool {
    &&& 0 <= idx <= old.len()
    &&& ordered(out)
    &&& unique_keys(out)
    &&& forall|k: int| 0 <= k < out.len() ==> from_table(a, last, #[trigger] out[k]) || from_old(a, old, idx, out[k])
    &&& forall|i: int|
        0 <= i < a.slots.len() && is_done(#[trigger] a.slots[i], i, last) && is_live(a.slots[i]) ==> out.contains(
            namespace_compact::record_of(a.slots[i].unwrap()),
        )
    &&& forall|j: int|
        0 <= j < idx && !namespace_reads::is_shadowed(#[trigger] old[j], a) ==> out.contains(old[j])
    &&& forall|k: int, i: int|
        #![trigger out[k], a.slots[i]]
        0 <= k < out.len() && 0 <= i < a.slots.len() && namespace_pic_state::is_behind(a.slots[i], i, last)
            ==> namespace_pic_state::before_or_at(
            namespace_compact::key_of(out[k]),
            namespace_pic_state::hashes(a.slots[i].unwrap()),
        )
    &&& forall|k: int, j: int|
        #![trigger out[k], old[j]]
        0 <= k < out.len() && idx <= j < old.len() ==> namespace_pic_state::before_or_at(
            namespace_compact::key_of(out[k]),
            namespace_compact::key_of(old[j]),
        )
}

/// A new snapshot is the merge of the table and the snapshot before: in order, one record
/// for a key, with the record of every live binding, and with every old record whose key
/// the table does not hold, and with nothing else. So a deleted key is not in it.
pub open spec fn is_merge(a: Arena, old: Seq<Record>, out: Seq<Record>) -> bool {
    &&& ordered(out)
    &&& unique_keys(out)
    &&& forall|i: int|
        0 <= i < a.slots.len() && is_live(#[trigger] a.slots[i]) ==> out.contains(
            namespace_compact::record_of(a.slots[i].unwrap()),
        )
    &&& forall|j: int|
        0 <= j < old.len() && !namespace_reads::is_shadowed(#[trigger] old[j], a) ==> out.contains(old[j])
    &&& forall|k: int|
        0 <= k < out.len() ==> (exists|i: int|
            0 <= i < a.slots.len() && is_live(#[trigger] a.slots[i]) && out[k] == namespace_compact::record_of(
                a.slots[i].unwrap(),
            )) || from_old(a, old, old.len() as int, #[trigger] out[k])
}

/// The record of the snapshot before that comes next.
pub open spec fn next_old(old: Seq<Record>, idx: int) -> Option<Record> {
    if idx < old.len() {
        Some(old[idx])
    } else {
        None
    }
}

/// The record of a binding is one of its key.
pub proof fn lemma_record_is_of_key(a: Arena, i: int)
    requires
        a.wf(),
        0 <= i < a.slots.len(),
        a.slots[i].is_some(),
    ensures
        ({
            let b = a.slots[i].unwrap();
            let r = namespace_compact::record_of(b);
            &&& loam_snapshot::record_root(r) == b.root
            &&& loam_snapshot::record_path(r) == b.path
            &&& loam_snapshot::record_oid(r) == b.object_id
            &&& namespace_compact::key_of(r) == namespace_pic_state::hashes(b)
            &&& is_true(r)
        }),
{
    let b = a.slots[i].unwrap();
    let r = namespace_compact::record_of(b);
    assert(loam_snapshot::record_root(r) =~= b.root);
    assert(loam_snapshot::record_path(r) =~= b.path);
    assert(loam_snapshot::record_oid(r) =~= b.object_id);
}

/// A true record whose key stands in a slot is shadowed.
proof fn lemma_is_shadowed(a: Arena, r: Record, i: int)
    requires
        is_true(r),
        0 <= i < a.slots.len(),
        namespace_pic_state::has_key(a.slots[i], loam_snapshot::record_root(r), loam_snapshot::record_path(r)),
    ensures
        namespace_reads::is_shadowed(r, a),
{
    let p = |b: Option<Binding>|
        namespace_pic_state::has_key(b, loam_snapshot::record_root(r), loam_snapshot::record_path(r));
    namespace_pic_state::lemma_first_where(a.slots, 0, p);
    assert(p(a.slots[i]));
}

/// A merge begins.
pub proof fn lemma_merge_begins(a: Arena, old: Seq<Record>)
    ensures
        merging(a, old, 0, None, Seq::empty()),
{
}

/// Merging a binding of the table.
pub proof fn lemma_merge_take(
    a: Arena,
    old: Seq<Record>,
    idx: int,
    last: Place,
    out: Seq<Record>,
    slot: int,
    key: (u64, u64),
    record: Option<Record>,
)
    requires
        a.wf(),
        a.slots.len() <= usize::MAX,
        is_snapshot(old),
        merging(a, old, idx, last, out),
        namespace_compact::step_of(a, last, next_old(old, idx)) == (Step::Take { slot, key, record }),
    ensures
        merging(
            a,
            old,
            idx,
            Some((key, slot as usize)),
            match record {
                Some(r) => out.push(r),
                None => out,
            },
        ),
{
    let last2: Place = Some((key, slot as usize));
    let out2 = match record {
        Some(r) => out.push(r),
        None => out,
    };
    assert(namespace_compact::is_next(a, last, slot));
    let b = a.slots[slot].unwrap();
    lemma_record_is_of_key(a, slot);
    assert forall|i: int| 0 <= i < a.slots.len() implies is_done(#[trigger] a.slots[i], i, last2) == (is_done(
        a.slots[i],
        i,
        last,
    ) || i == slot) by {
        if a.slots[i].is_some() && namespace_pic_state::is_behind(a.slots[i], i, last) {
            if i < slot {
                assert(namespace_pic_state::hashes(a.slots[i].unwrap()) != key);
            }
        }
    }
    assert forall|k: int| 0 <= k < out2.len() implies from_table(a, last2, #[trigger] out2[k]) || from_old(
        a,
        old,
        idx,
        out2[k],
    ) by {
        if k < out.len() {
            assert(out2[k] == out[k]);
            if from_table(a, last, out[k]) {
                let i = choose|i: int|
                    0 <= i < a.slots.len() && is_done(#[trigger] a.slots[i], i, last) && is_live(a.slots[i]) && out[k]
                        == namespace_compact::record_of(a.slots[i].unwrap());
                assert(is_done(a.slots[i], i, last2));
            }
        } else {
            assert(is_done(a.slots[slot], slot, last2) && is_live(a.slots[slot]));
        }
    }
    assert forall|i: int|
        0 <= i < a.slots.len() && is_done(#[trigger] a.slots[i], i, last2) && is_live(
            a.slots[i],
        ) implies out2.contains(namespace_compact::record_of(a.slots[i].unwrap())) by {
        if i == slot {
            assert(out2[out.len() as int] == record.unwrap());
        } else {
            assert(out.contains(namespace_compact::record_of(a.slots[i].unwrap())));
            let k = out.index_of(namespace_compact::record_of(a.slots[i].unwrap()));
            assert(out2[k] == out[k]);
        }
    }
    assert forall|j: int| 0 <= j < idx && !namespace_reads::is_shadowed(#[trigger] old[j], a) implies out2.contains(
        old[j],
    ) by {
        assert(out.contains(old[j]));
        let k = out.index_of(old[j]);
        assert(out2[k] == out[k]);
    }
    if let Some(r) = record {
        assert forall|k: int| 0 <= k < out.len() implies !same_key(#[trigger] out[k], r) by {
            if same_key(out[k], r) {
                if from_table(a, last, out[k]) {
                    let i = choose|i: int|
                        0 <= i < a.slots.len() && is_done(#[trigger] a.slots[i], i, last) && is_live(a.slots[i])
                            && out[k] == namespace_compact::record_of(a.slots[i].unwrap());
                    lemma_record_is_of_key(a, i);
                    assert(a.slots[i].unwrap().root == b.root && a.slots[i].unwrap().path == b.path);
                    assert(i == slot);
                } else {
                    let j = choose|j: int|
                        0 <= j < idx && out[k] == #[trigger] old[j] && !namespace_reads::is_shadowed(old[j], a);
                    assert(is_true(old[j]));
                    lemma_is_shadowed(a, old[j], slot);
                }
            }
        }
        assert forall|k: int| 0 <= k < out.len() implies namespace_pic_state::before_or_at(
            namespace_compact::key_of(#[trigger] out[k]),
            key,
        ) by {
            assert(namespace_pic_state::is_behind(a.slots[slot], slot, last));
        }
    }
    assert(ordered(out2));
    assert(unique_keys(out2));
    assert forall|k: int, i: int|
        #![trigger out2[k], a.slots[i]]
        0 <= k < out2.len() && 0 <= i < a.slots.len() && namespace_pic_state::is_behind(
            a.slots[i],
            i,
            last2,
        ) implies namespace_pic_state::before_or_at(
        namespace_compact::key_of(out2[k]),
        namespace_pic_state::hashes(a.slots[i].unwrap()),
    ) by {
        assert(!is_done(a.slots[i], i, last2));
        assert(namespace_pic_state::is_behind(a.slots[i], i, last));
        if k < out.len() {
            assert(out2[k] == out[k]);
        }
    }
    assert forall|k: int, j: int|
        #![trigger out2[k], old[j]]
        0 <= k < out2.len() && idx <= j < old.len() implies namespace_pic_state::before_or_at(
        namespace_compact::key_of(out2[k]),
        namespace_compact::key_of(old[j]),
    ) by {
        if k < out.len() {
            assert(out2[k] == out[k]);
        } else if idx < j {
            assert(namespace_pic_state::before_or_at(
                namespace_compact::key_of(old[idx]),
                namespace_compact::key_of(old[j]),
            ));
        }
    }
}

/// Copying a record of the snapshot before.
pub proof fn lemma_merge_copy(a: Arena, old: Seq<Record>, idx: int, last: Place, out: Seq<Record>)
    requires
        a.wf(),
        is_snapshot(old),
        merging(a, old, idx, last, out),
        namespace_compact::step_of(a, last, next_old(old, idx)) is Copy,
    ensures
        merging(a, old, idx + 1, last, out.push(old[idx])),
{
    let out2 = out.push(old[idx]);
    let r = old[idx];
    assert(is_true(r));
    lemma_next_exists(a, last);
    if let Some(n) = namespace_compact::next_slot(a, last) {
        assert(namespace_compact::is_next(a, last, n));
    }
    assert forall|k: int| 0 <= k < out2.len() implies from_table(a, last, #[trigger] out2[k]) || from_old(
        a,
        old,
        idx + 1,
        out2[k],
    ) by {
        if k < out.len() {
            assert(out2[k] == out[k]);
            if !from_table(a, last, out[k]) {
                let j = choose|j: int|
                    0 <= j < idx && out[k] == #[trigger] old[j] && !namespace_reads::is_shadowed(old[j], a);
                assert(from_old(a, old, idx + 1, out2[k]));
            }
        } else {
            assert(out2[k] == old[idx]);
        }
    }
    assert forall|i: int|
        0 <= i < a.slots.len() && is_done(#[trigger] a.slots[i], i, last) && is_live(
            a.slots[i],
        ) implies out2.contains(namespace_compact::record_of(a.slots[i].unwrap())) by {
        let q = namespace_compact::record_of(a.slots[i].unwrap());
        assert(out.contains(q));
        assert(out2[out.index_of(q)] == q);
    }
    assert forall|j: int|
        0 <= j < idx + 1 && !namespace_reads::is_shadowed(#[trigger] old[j], a) implies out2.contains(old[j]) by {
        if j < idx {
            assert(out.contains(old[j]));
            assert(out2[out.index_of(old[j])] == old[j]);
        } else {
            assert(out2[out.len() as int] == old[idx]);
        }
    }
    assert forall|k: int| 0 <= k < out.len() implies !same_key(#[trigger] out[k], r) by {
        if same_key(out[k], r) {
            if from_table(a, last, out[k]) {
                let i = choose|i: int|
                    0 <= i < a.slots.len() && is_done(#[trigger] a.slots[i], i, last) && is_live(a.slots[i]) && out[k]
                        == namespace_compact::record_of(a.slots[i].unwrap());
                lemma_record_is_of_key(a, i);
                lemma_is_shadowed(a, r, i);
            } else {
                let j = choose|j: int|
                    0 <= j < idx && out[k] == #[trigger] old[j] && !namespace_reads::is_shadowed(old[j], a);
                assert(!same_key(old[j], old[idx]));
            }
        }
    }
    assert(unique_keys(out2));
    assert forall|k: int, i: int|
        #![trigger out2[k], a.slots[i]]
        0 <= k < out2.len() && 0 <= i < a.slots.len() && namespace_pic_state::is_behind(
            a.slots[i],
            i,
            last,
        ) implies namespace_pic_state::before_or_at(
        namespace_compact::key_of(out2[k]),
        namespace_pic_state::hashes(a.slots[i].unwrap()),
    ) by {
        if k < out.len() {
            assert(out2[k] == out[k]);
        } else {
            let n = namespace_compact::next_slot(a, last).unwrap();
            assert(namespace_compact::is_next(a, last, n));
        }
    }
    assert forall|k: int, j: int|
        #![trigger out2[k], old[j]]
        0 <= k < out2.len() && idx + 1 <= j < old.len() implies namespace_pic_state::before_or_at(
        namespace_compact::key_of(out2[k]),
        namespace_compact::key_of(old[j]),
    ) by {
        if k < out.len() {
            assert(out2[k] == out[k]);
        }
    }
}

/// Leaving out a record of the snapshot before whose key the table holds.
pub proof fn lemma_merge_drop(a: Arena, old: Seq<Record>, idx: int, last: Place, out: Seq<Record>)
    requires
        merging(a, old, idx, last, out),
        namespace_compact::step_of(a, last, next_old(old, idx)) is Drop,
    ensures
        merging(a, old, idx + 1, last, out),
{
    assert forall|k: int| 0 <= k < out.len() implies from_table(a, last, #[trigger] out[k]) || from_old(
        a,
        old,
        idx + 1,
        out[k],
    ) by {
        if !from_table(a, last, out[k]) {
            let j = choose|j: int|
                0 <= j < idx && out[k] == #[trigger] old[j] && !namespace_reads::is_shadowed(old[j], a);
            assert(from_old(a, old, idx + 1, out[k]));
        }
    }
}

/// Where there is something behind `last`, there is something that comes next.
proof fn lemma_next_exists(a: Arena, last: Place)
    ensures
        namespace_compact::next_slot(a, last) is None ==> forall|i: int|
            0 <= i < a.slots.len() ==> !namespace_pic_state::is_behind(#[trigger] a.slots[i], i, last),
{
    if exists|i: int| 0 <= i < a.slots.len() && namespace_pic_state::is_behind(#[trigger] a.slots[i], i, last) {
        lemma_least(a, last, a.slots.len() as int);
        let i = choose|i: int| is_least(a, last, a.slots.len() as int, i);
        assert(namespace_compact::is_next(a, last, i));
    }
}

spec fn is_least(a: Arena, last: Place, n: int, i: int) -> bool {
    &&& 0 <= i < n
    &&& namespace_pic_state::is_behind(a.slots[i], i, last)
    &&& forall|j: int|
        0 <= j < n && namespace_pic_state::is_behind(#[trigger] a.slots[j], j, last)
            ==> namespace_pic_state::before_or_at(
            namespace_pic_state::hashes(a.slots[i].unwrap()),
            namespace_pic_state::hashes(a.slots[j].unwrap()),
        ) && (j < i ==> namespace_pic_state::hashes(a.slots[j].unwrap()) != namespace_pic_state::hashes(
            a.slots[i].unwrap(),
        ))
}

proof fn lemma_least(a: Arena, last: Place, n: int)
    requires
        0 <= n <= a.slots.len(),
        exists|i: int| 0 <= i < n && namespace_pic_state::is_behind(#[trigger] a.slots[i], i, last),
    ensures
        exists|i: int| is_least(a, last, n, i),
    decreases n,
{
    let m = n - 1;
    if exists|i: int| 0 <= i < m && namespace_pic_state::is_behind(#[trigger] a.slots[i], i, last) {
        lemma_least(a, last, m);
        let i = choose|i: int| is_least(a, last, m, i);
        if namespace_pic_state::is_behind(a.slots[m], m, last) && !namespace_pic_state::before_or_at(
            namespace_pic_state::hashes(a.slots[i].unwrap()),
            namespace_pic_state::hashes(a.slots[m].unwrap()),
        ) {
            assert(is_least(a, last, n, m));
        } else {
            assert(is_least(a, last, n, i));
        }
    } else {
        assert(is_least(a, last, n, m));
    }
}

/// A merge that finishes has written the merge.
pub proof fn lemma_merge_finishes(a: Arena, old: Seq<Record>, idx: int, last: Place, out: Seq<Record>)
    requires
        merging(a, old, idx, last, out),
        namespace_compact::step_of(a, last, next_old(old, idx)) is Finish,
    ensures
        is_merge(a, old, out),
{
    lemma_next_exists(a, last);
    assert(idx == old.len());
    assert forall|i: int| 0 <= i < a.slots.len() && is_live(#[trigger] a.slots[i]) implies out.contains(
        namespace_compact::record_of(a.slots[i].unwrap()),
    ) by {
        assert(is_done(a.slots[i], i, last));
    }
    assert forall|k: int| 0 <= k < out.len() implies (exists|i: int|
        0 <= i < a.slots.len() && is_live(#[trigger] a.slots[i]) && out[k] == namespace_compact::record_of(
            a.slots[i].unwrap(),
        )) || from_old(a, old, old.len() as int, #[trigger] out[k]) by {
        if from_table(a, last, out[k]) {
            let i = choose|i: int|
                0 <= i < a.slots.len() && is_done(#[trigger] a.slots[i], i, last) && is_live(a.slots[i]) && out[k]
                    == namespace_compact::record_of(a.slots[i].unwrap());
            assert(is_live(a.slots[i]));
        }
    }
}

/// The table holds the same bindings, whatever merges have marked.
pub open spec fn same_but_marks(a: Arena, b: Arena) -> bool {
    &&& a.slots.len() == b.slots.len()
    &&& forall|i: int|
        #![trigger a.slots[i]]
        #![trigger b.slots[i]]
        0 <= i < a.slots.len() ==> a.slots[i].is_some() == b.slots[i].is_some() && (a.slots[i].is_some()
            ==> b.slots[i].unwrap() == (Binding { emitted_tag: b.slots[i].unwrap().emitted_tag, ..a.slots[i].unwrap() }))
}

proof fn lemma_same_shadows(a: Arena, b: Arena, r: Record)
    requires
        same_but_marks(a, b),
    ensures
        namespace_reads::is_shadowed(r, a) == namespace_reads::is_shadowed(r, b),
{
    let p = |x: Option<Binding>|
        namespace_pic_state::has_key(x, loam_snapshot::record_root(r), loam_snapshot::record_path(r));
    namespace_pic_state::lemma_first_where(a.slots, 0, p);
    namespace_pic_state::lemma_first_where(b.slots, 0, p);
    let (root, path) = (loam_snapshot::record_root(r), loam_snapshot::record_path(r));
    if let Some(i) = a.find(root, path) {
        assert(p(b.slots[i]));
    }
    if let Some(i) = b.find(root, path) {
        assert(p(a.slots[i]));
    }
}

/// Marking what a merge has seen does not disturb it.
pub proof fn lemma_marks_keep_merging(
    a: Arena,
    c: Arena,
    old: Seq<Record>,
    idx: int,
    last: Place,
    out: Seq<Record>,
)
    requires
        same_but_marks(a, c),
        merging(a, old, idx, last, out),
    ensures
        merging(c, old, idx, last, out),
        a.wf() ==> c.wf(),
{
    assert forall|i: int| 0 <= i < a.slots.len() implies (#[trigger] c.slots[i]).is_some() == a.slots[i].is_some()
        && is_live(c.slots[i]) == is_live(a.slots[i]) && is_done(c.slots[i], i, last) == is_done(a.slots[i], i, last)
        && namespace_pic_state::is_behind(c.slots[i], i, last) == namespace_pic_state::is_behind(a.slots[i], i, last)
        && (a.slots[i].is_some() ==> namespace_pic_state::hashes(c.slots[i].unwrap())
        == namespace_pic_state::hashes(a.slots[i].unwrap()) && namespace_compact::record_of(c.slots[i].unwrap())
        == namespace_compact::record_of(a.slots[i].unwrap())) by {
        assert(a.slots[i].is_some() == c.slots[i].is_some());
    }
    assert forall|j: int| 0 <= j < old.len() implies namespace_reads::is_shadowed(#[trigger] old[j], c)
        == namespace_reads::is_shadowed(old[j], a) by {
        lemma_same_shadows(a, c, old[j]);
    }
    assert forall|k: int| 0 <= k < out.len() implies from_table(c, last, #[trigger] out[k]) || from_old(
        c,
        old,
        idx,
        out[k],
    ) by {
        if from_table(a, last, out[k]) {
            let i = choose|i: int|
                0 <= i < a.slots.len() && is_done(#[trigger] a.slots[i], i, last) && is_live(a.slots[i]) && out[k]
                    == namespace_compact::record_of(a.slots[i].unwrap());
            assert(is_done(c.slots[i], i, last) && is_live(c.slots[i]));
        } else {
            let j = choose|j: int|
                0 <= j < idx && out[k] == #[trigger] old[j] && !namespace_reads::is_shadowed(old[j], a);
            assert(!namespace_reads::is_shadowed(old[j], c));
        }
    }
    assert forall|i: int|
        0 <= i < c.slots.len() && is_done(#[trigger] c.slots[i], i, last) && is_live(
            c.slots[i],
        ) implies out.contains(namespace_compact::record_of(c.slots[i].unwrap())) by {
        assert(is_done(a.slots[i], i, last) && is_live(a.slots[i]));
    }
    assert forall|k: int, i: int|
        #![trigger out[k], c.slots[i]]
        0 <= k < out.len() && 0 <= i < c.slots.len() && namespace_pic_state::is_behind(
            c.slots[i],
            i,
            last,
        ) implies namespace_pic_state::before_or_at(
        namespace_compact::key_of(out[k]),
        namespace_pic_state::hashes(c.slots[i].unwrap()),
    ) by {
        assert(namespace_pic_state::is_behind(a.slots[i], i, last));
    }
    if a.wf() {
        assert forall|i: int, j: int|
            #![trigger c.slots[i], c.slots[j]]
            0 <= i < j < c.slots.len() && c.slots[i].is_some() && c.slots[j].is_some() implies c.slots[i].unwrap().root
            != c.slots[j].unwrap().root || c.slots[i].unwrap().path != c.slots[j].unwrap().path by {
            assert(a.slots[i].is_some() && a.slots[j].is_some());
        }
    }
}

/// One step of a merge: the table, with what the merge has seen marked, where the merge
/// stands in the snapshot before and in the table, and what has been written. `None`
/// where the merge is finished.
pub open spec fn merge_step(
    a: Arena,
    old: Seq<Record>,
    idx: int,
    last: Place,
    out: Seq<Record>,
    tag: u8,
) -> Option<(Arena, int, Place, Seq<Record>)> {
    match namespace_compact::step_of(a, last, next_old(old, idx)) {
        Step::Finish => None,
        Step::Take { slot, key, record } => Some(
            (
                namespace_compact::seen(a, slot, tag),
                idx,
                Some((key, slot as usize)),
                match record {
                    Some(r) => out.push(r),
                    None => out,
                },
            ),
        ),
        Step::Copy => Some((a, idx + 1, last, out.push(old[idx]))),
        Step::Drop => Some((a, idx + 1, last, out)),
    }
}

/// At most `n` steps of a merge: the table and what has been written after them, and
/// whether the merge has finished.
pub open spec fn merged(
    a: Arena,
    old: Seq<Record>,
    idx: int,
    last: Place,
    out: Seq<Record>,
    tag: u8,
    n: nat,
) -> (Arena, Seq<Record>, bool)
    decreases n,
{
    match merge_step(a, old, idx, last, out, tag) {
        None => (a, out, true),
        Some((b, next, at, written)) => if n == 0 {
            (a, out, false)
        } else {
            merged(b, old, next, at, written, tag, (n - 1) as nat)
        },
    }
}

/// What was merged carries the mark.
spec fn done_is_marked(a: Arena, last: Place, tag: u8) -> bool {
    forall|i: int|
        0 <= i < a.slots.len() && is_done(#[trigger] a.slots[i], i, last) ==> a.slots[i].unwrap().emitted_tag == tag
}

/// How many of the first `n` slots stand behind `last`.
spec fn left_in_table(a: Arena, last: Place, n: int) -> nat
    decreases n,
{
    if n <= 0 {
        0
    } else {
        left_in_table(a, last, n - 1) + if namespace_pic_state::is_behind(a.slots[n - 1], n - 1, last) {
            1nat
        } else {
            0nat
        }
    }
}

proof fn lemma_left_at_most(a: Arena, last: Place, n: int)
    requires
        0 <= n,
    ensures
        left_in_table(a, last, n) <= n,
    decreases n,
{
    if n > 0 {
        lemma_left_at_most(a, last, n - 1);
    }
}

proof fn lemma_fewer_left(a: Arena, b: Arena, last: Place, next: Place, n: int, slot: int)
    requires
        0 <= n <= a.slots.len(),
        a.slots.len() == b.slots.len(),
        forall|i: int|
            #![trigger b.slots[i]]
            0 <= i < a.slots.len() && namespace_pic_state::is_behind(b.slots[i], i, next) ==> i != slot
                && namespace_pic_state::is_behind(a.slots[i], i, last),
        namespace_pic_state::is_behind(a.slots[slot], slot, last),
        0 <= slot < a.slots.len(),
    ensures
        left_in_table(b, next, n) + if slot < n {
            1int
        } else {
            0int
        } <= left_in_table(a, last, n),
    decreases n,
{
    if n > 0 {
        lemma_fewer_left(a, b, last, next, n - 1, slot);
        assert(namespace_pic_state::is_behind(b.slots[n - 1], n - 1, next) ==> namespace_pic_state::is_behind(
            a.slots[n - 1],
            n - 1,
            last,
        ));
    }
}

proof fn lemma_is_merge_of_same(a: Arena, b: Arena, old: Seq<Record>, out: Seq<Record>)
    requires
        same_but_marks(a, b),
        is_merge(b, old, out),
    ensures
        is_merge(a, old, out),
{
    assert forall|i: int| 0 <= i < a.slots.len() implies is_live(#[trigger] a.slots[i]) == is_live(b.slots[i])
        && (a.slots[i].is_some() ==> namespace_compact::record_of(a.slots[i].unwrap()) == namespace_compact::record_of(
        b.slots[i].unwrap(),
    )) by {
        assert(b.slots[i].is_some() == a.slots[i].is_some());
    }
    assert forall|j: int| 0 <= j < old.len() implies namespace_reads::is_shadowed(#[trigger] old[j], a)
        == namespace_reads::is_shadowed(old[j], b) by {
        lemma_same_shadows(a, b, old[j]);
    }
    assert forall|i: int| 0 <= i < a.slots.len() && is_live(#[trigger] a.slots[i]) implies out.contains(
        namespace_compact::record_of(a.slots[i].unwrap()),
    ) by {
        assert(is_live(b.slots[i]));
    }
    assert forall|k: int| 0 <= k < out.len() implies (exists|i: int|
        0 <= i < a.slots.len() && is_live(#[trigger] a.slots[i]) && out[k] == namespace_compact::record_of(
            a.slots[i].unwrap(),
        )) || from_old(a, old, old.len() as int, #[trigger] out[k]) by {
        if from_old(b, old, old.len() as int, out[k]) {
            let j = choose|j: int|
                0 <= j < old.len() && out[k] == #[trigger] old[j] && !namespace_reads::is_shadowed(old[j], b);
            assert(!namespace_reads::is_shadowed(old[j], a));
        } else {
            let i = choose|i: int|
                0 <= i < b.slots.len() && is_live(#[trigger] b.slots[i]) && out[k] == namespace_compact::record_of(
                    b.slots[i].unwrap(),
                );
            assert(is_live(a.slots[i]));
        }
    }
}

proof fn lemma_merge_runs(a: Arena, old: Seq<Record>, idx: int, last: Place, out: Seq<Record>, tag: u8, n: nat)
    requires
        a.wf(),
        a.slots.len() <= usize::MAX,
        is_snapshot(old),
        merging(a, old, idx, last, out),
        done_is_marked(a, last, tag),
        n >= left_in_table(a, last, a.slots.len() as int) + old.len() - idx,
    ensures
        ({
            let (b, written, done) = merged(a, old, idx, last, out, tag, n);
            &&& done
            &&& is_merge(b, old, written)
            &&& same_but_marks(a, b)
            &&& forall|i: int|
                0 <= i < b.slots.len() && (#[trigger] b.slots[i]).is_some() ==> b.slots[i].unwrap().emitted_tag == tag
        }),
    decreases n,
{
    lemma_next_exists(a, last);
    match namespace_compact::step_of(a, last, next_old(old, idx)) {
        Step::Finish => {
            lemma_merge_finishes(a, old, idx, last, out);
            assert forall|i: int| 0 <= i < a.slots.len() && (#[trigger] a.slots[i]).is_some() implies a.slots[i].unwrap().emitted_tag
                == tag by {
                assert(is_done(a.slots[i], i, last));
            }
        },
        Step::Copy => {
            lemma_merge_copy(a, old, idx, last, out);
            lemma_merge_runs(a, old, idx + 1, last, out.push(old[idx]), tag, (n - 1) as nat);
        },
        Step::Drop => {
            lemma_merge_drop(a, old, idx, last, out);
            lemma_merge_runs(a, old, idx + 1, last, out, tag, (n - 1) as nat);
        },
        Step::Take { slot, key, record } => {
            lemma_merge_take(a, old, idx, last, out, slot, key, record);
            let (b, next, at, written) = merge_step(a, old, idx, last, out, tag).unwrap();
            assert(namespace_compact::is_next(a, last, slot));
            assert(same_but_marks(a, b));
            lemma_marks_keep_merging(a, b, old, next, at, written);
            assert forall|i: int| 0 <= i < a.slots.len() implies is_done(#[trigger] b.slots[i], i, at) == (is_done(
                a.slots[i],
                i,
                last,
            ) || i == slot) && (i != slot ==> b.slots[i] == a.slots[i]) by {
                if a.slots[i].is_some() && namespace_pic_state::is_behind(a.slots[i], i, last) {
                    if i < slot {
                        assert(namespace_pic_state::hashes(a.slots[i].unwrap()) != key);
                    }
                }
            }
            assert forall|i: int|
                #![trigger b.slots[i]]
                0 <= i < a.slots.len() && namespace_pic_state::is_behind(b.slots[i], i, at) implies i != slot
                && namespace_pic_state::is_behind(a.slots[i], i, last) by {
                assert(!is_done(b.slots[i], i, at));
                assert(!is_done(a.slots[i], i, last));
            }
            lemma_fewer_left(a, b, last, at, a.slots.len() as int, slot);
            lemma_merge_runs(b, old, next, at, written, tag, (n - 1) as nat);
            let c = merged(b, old, next, at, written, tag, (n - 1) as nat).0;
            assert forall|i: int|
                0 <= i < a.slots.len() implies (#[trigger] a.slots[i]).is_some() == c.slots[i].is_some() && (
            a.slots[i].is_some() ==> c.slots[i].unwrap() == (Binding {
                emitted_tag: c.slots[i].unwrap().emitted_tag,
                ..a.slots[i].unwrap()
            })) by {
                assert(b.slots[i].is_some() == a.slots[i].is_some());
                assert(c.slots[i].is_some() == b.slots[i].is_some());
            }
        },
    }
}

/// A merge that nothing disturbs finishes, after no more steps than the table has slots
/// and the snapshot before has records. What it has written is a snapshot, and the merge
/// of the two: in order, one record for a key, with the record of every live binding, with
/// every old record whose key the table does not hold, with nothing else, and so without
/// deletions. It has marked every binding, and has changed nothing else in the table.
pub proof fn lemma_merge_is_whole(a: Arena, old: Seq<Record>, tag: u8)
    requires
        a.wf(),
        a.slots.len() <= usize::MAX,
        is_snapshot(old),
    ensures
        ({
            let (b, written, done) = merged(a, old, 0, None, Seq::empty(), tag, a.slots.len() + old.len());
            &&& done
            &&& is_merge(a, old, written)
            &&& is_merge(b, old, written)
            &&& is_snapshot(written)
            &&& same_but_marks(a, b)
            &&& forall|i: int|
                0 <= i < b.slots.len() && (#[trigger] b.slots[i]).is_some() ==> b.slots[i].unwrap().emitted_tag == tag
        }),
{
    lemma_merge_begins(a, old);
    lemma_left_at_most(a, None, a.slots.len() as int);
    lemma_merge_runs(a, old, 0, None, Seq::empty(), tag, a.slots.len() + old.len());
    let (b, written, done) = merged(a, old, 0, None, Seq::empty(), tag, a.slots.len() + old.len());
    lemma_is_merge_of_same(a, b, old, written);
    assert forall|k: int| 0 <= k < written.len() implies is_true(#[trigger] written[k]) && written[k].kind
        != namespace_pic_state::KIND_TOMBSTONE by {
        if from_old(a, old, old.len() as int, written[k]) {
            let j = choose|j: int|
                0 <= j < old.len() && written[k] == #[trigger] old[j] && !namespace_reads::is_shadowed(old[j], a);
            assert(is_true(old[j]));
        } else {
            let i = choose|i: int|
                0 <= i < a.slots.len() && is_live(#[trigger] a.slots[i]) && written[k] == namespace_compact::record_of(
                    a.slots[i].unwrap(),
                );
            lemma_record_is_of_key(a, i);
        }
    }
}

/// The record of a key in a snapshot.
pub open spec fn find_record(records: Seq<Record>, root: Seq<u8>, path: Seq<u8>) -> Option<Record> {
    if exists|k: int| 0 <= k < records.len() && loam_snapshot::record_is(#[trigger] records[k], root, path) {
        Some(
            records[choose|k: int|
                0 <= k < records.len() && loam_snapshot::record_is(#[trigger] records[k], root, path)],
        )
    } else {
        None
    }
}

proof fn lemma_find_record(records: Seq<Record>, r: Record, root: Seq<u8>, path: Seq<u8>)
    requires
        unique_keys(records),
        records.contains(r),
        loam_snapshot::record_is(r, root, path),
    ensures
        find_record(records, root, path) == Some(r),
{
    let i = records.index_of(r);
    assert(loam_snapshot::record_is(records[i], root, path));
    let k = choose|k: int| 0 <= k < records.len() && loam_snapshot::record_is(#[trigger] records[k], root, path);
    assert(k == i) by {
        assert(same_key(records[k], records[i]) && same_key(records[i], records[k]));
    }
}

/// A search in a snapshot finds the record of a key, exactly where it holds one.
pub proof fn lemma_search_finds_record(records: Seq<Record>, root: Seq<u8>, path: Seq<u8>)
    requires
        is_snapshot(records),
        records.len() <= u32::MAX,
    ensures
        find_record(records, root, path) == match Search::begin(records.len() as u32, root, path).outcome(records) {
            Some(i) => Some(records[i as int]),
            None => None,
        },
{
    assert(loam_snapshot::hashed(records, root, path)) by {
        assert forall|i: int|
            0 <= i < records.len() && loam_snapshot::record_is(
                #[trigger] records[i],
                root,
                path,
            ) implies loam_snapshot::hashes_of(records[i]) == (loam_hash::fnv(root), loam_hash::fnv(path)) by {
            assert(is_true(records[i]));
        }
    }
    loam_snapshot::lemma_search_finds(records, root, path);
    if let Some(i) = Search::begin(records.len() as u32, root, path).outcome(records) {
        assert(records.contains(records[i as int]));
        lemma_find_record(records, records[i as int], root, path);
    }
}

/// Putting a new snapshot in place of the old one changes no lookup: neither of a key
/// that the table holds, nor of one that was deleted, nor of one that only a snapshot
/// holds.
pub proof fn lemma_compaction_keeps_lookups(
    t: Table,
    old: Seq<Record>,
    out: Seq<Record>,
    tag: u8,
    root: Seq<u8>,
    path: Seq<u8>,
)
    requires
        t.arena.wf(),
        is_snapshot(old),
        is_merge(t.arena, old, out),
        !t.snap_active ==> old.len() == 0,
        forall|i: int|
            0 <= i < t.arena.slots.len() && (#[trigger] t.arena.slots[i]).is_some()
                ==> t.arena.slots[i].unwrap().emitted_tag == tag,
    ensures
        ({
            let after = Table { arena: t.arena.finalize(tag), snap_active: true, merging: false, ..t };
            namespace_reads::lookup_answer(after, root, path, find_record(out, root, path))
                == namespace_reads::lookup_answer(t, root, path, find_record(old, root, path))
        }),
{
    let a = t.arena;
    let f = a.finalize(tag);
    let p = |b: Option<Binding>| namespace_pic_state::has_key(b, root, path);
    namespace_pic_state::lemma_first_where(a.slots, 0, p);
    namespace_pic_state::lemma_first_where(f.slots, 0, p);
    match a.find(root, path) {
        Some(i) => {
            assert(p(a.slots[i]));
            let b = a.slots[i].unwrap();
            if b.kind == namespace_pic_state::KIND_TOMBSTONE {
                assert(f.slots[i] is None);
                if let Some(k) = f.find(root, path) {
                    assert(p(f.slots[k]));
                    assert(p(a.slots[k]));
                }
                assert(find_record(out, root, path) is None) by {
                    if find_record(out, root, path) is Some {
                        let k = choose|k: int|
                            0 <= k < out.len() && loam_snapshot::record_is(#[trigger] out[k], root, path);
                        if from_old(a, old, old.len() as int, out[k]) {
                            let j = choose|j: int|
                                0 <= j < old.len() && out[k] == #[trigger] old[j] && !namespace_reads::is_shadowed(
                                    old[j],
                                    a,
                                );
                            assert(is_true(old[j]));
                            lemma_is_shadowed(a, old[j], i);
                        } else {
                            let l = choose|l: int|
                                0 <= l < a.slots.len() && is_live(#[trigger] a.slots[l]) && out[k]
                                    == namespace_compact::record_of(a.slots[l].unwrap());
                            lemma_record_is_of_key(a, l);
                            assert(l == i);
                        }
                    }
                }
            } else {
                assert(p(f.slots[i]));
                let k = f.find(root, path).unwrap();
                assert(p(f.slots[k]));
                assert(p(a.slots[k]));
                assert(k == i);
            }
        },
        None => {
            if let Some(k) = f.find(root, path) {
                assert(p(f.slots[k]));
                assert(p(a.slots[k]));
            }
            if find_record(old, root, path) is Some {
                let j = choose|j: int| 0 <= j < old.len() && loam_snapshot::record_is(#[trigger] old[j], root, path);
                assert(!namespace_reads::is_shadowed(old[j], a));
                assert(out.contains(old[j]));
                lemma_find_record(out, old[j], root, path);
                assert(old.contains(old[j]));
                lemma_find_record(old, old[j], root, path);
            } else if find_record(out, root, path) is Some {
                let k = choose|k: int| 0 <= k < out.len() && loam_snapshot::record_is(#[trigger] out[k], root, path);
                if from_old(a, old, old.len() as int, out[k]) {
                    let j = choose|j: int|
                        0 <= j < old.len() && out[k] == #[trigger] old[j] && !namespace_reads::is_shadowed(old[j], a);
                    assert(loam_snapshot::record_is(old[j], root, path));
                } else {
                    let l = choose|l: int|
                        0 <= l < a.slots.len() && is_live(#[trigger] a.slots[l]) && out[k]
                            == namespace_compact::record_of(a.slots[l].unwrap());
                    lemma_record_is_of_key(a, l);
                    assert(p(a.slots[l]));
                }
            }
        },
    }
}

/// Once the new snapshot is in use, dropping a binding that it covers from the table
/// changes no lookup of that key.
pub proof fn lemma_covered_binding_is_found(out: Seq<Record>, a: Arena, old: Seq<Record>, i: int)
    requires
        is_merge(a, old, out),
        0 <= i < a.slots.len(),
        is_live(a.slots[i]),
        a.wf(),
    ensures
        ({
            let b = a.slots[i].unwrap();
            namespace_reads::snapshot_answer(b.root, b.path, find_record(out, b.root, b.path))
                == loam_wire::lookup_found_frame(b.object_id, b.revision, b.kind)
        }),
{
    let b = a.slots[i].unwrap();
    let r = namespace_compact::record_of(b);
    lemma_record_is_of_key(a, i);
    lemma_find_record(out, r, b.root, b.path);
}

} // verus!
