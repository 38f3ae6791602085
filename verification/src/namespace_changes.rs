//! What changed in a namespace since a position in its change stream.
//!
//! Position zero asks for what is there now. Any other asks for what changed behind
//! it, which can be answered only while the table still holds the evidence: behind
//! the horizon, or where the answer does not fit, the answer is that changes were
//! lost, and never a part of them.
use crate::bytes;
use crate::loam_change_wire;
use crate::namespace_laws;
use crate::namespace_laws::Standing;
use crate::namespace_pic_state;
use crate::namespace_pic_state::{Arena, Binding, BindingSlot, PicNamespaceState};
use vstd::prelude::*;

verus! {

/// The slot takes part in the answer.
pub open spec fn is_selected(b: Option<Binding>, prefix: Seq<u8>, since: u64) -> bool {
    b matches Some(x) && (since == 0 || x.change_rev > since) && (since != 0 || x.kind
        != namespace_pic_state::KIND_TOMBSTONE) && prefix.is_prefix_of(x.path)
}

/// How a binding is answered: a deletion without a value.
pub open spec fn answered(b: Binding, since: u64) -> Seq<u8> {
    if b.kind == namespace_pic_state::KIND_TOMBSTONE {
        loam_change_wire::record_frame(b.change_rev, loam_change_wire::KIND_DELETED, b.path, Seq::empty())
    } else {
        loam_change_wire::record_frame(
            b.change_rev,
            if since == 0 {
                loam_change_wire::KIND_ADDED
            } else {
                loam_change_wire::KIND_MODIFIED
            },
            b.path,
            b.object_id,
        )
    }
}

/// How many of the first `n` slots take part.
pub open spec fn selected_count(s: Seq<Option<Binding>>, prefix: Seq<u8>, since: u64, n: int) -> nat
    decreases n,
{
    if n <= 0 {
        0
    } else {
        selected_count(s, prefix, since, n - 1) + if is_selected(s[n - 1], prefix, since) {
            1nat
        } else {
            0nat
        }
    }
}

/// What the first `n` slots answer.
pub open spec fn selected_bytes(s: Seq<Option<Binding>>, prefix: Seq<u8>, since: u64, n: int) -> Seq<u8>
    decreases n,
{
    if n <= 0 {
        Seq::empty()
    } else {
        let before = selected_bytes(s, prefix, since, n - 1);
        if is_selected(s[n - 1], prefix, since) {
            before + answered(s[n - 1].unwrap(), since)
        } else {
            before
        }
    }
}

/// The position can no longer be vouched for, or was never reached.
pub open spec fn is_lost(a: Arena, since: u64) -> bool {
    (since != 0 && since < a.change_horizon) || since > a.change_seq
}

/// That changes were lost.
pub open spec fn lost_answer() -> Seq<u8> {
    seq![loam_change_wire::STATUS_LOST] + bytes::le32(0)
}

/// The answer, where `room` bytes can hold it.
pub open spec fn changes_answer(a: Arena, prefix: Seq<u8>, since: u64, room: nat) -> Seq<u8> {
    let body = selected_bytes(a.slots, prefix, since, a.slots.len() as int);
    if is_lost(a, since) || loam_change_wire::CHANGES_HEADER + body.len() > room {
        lost_answer()
    } else {
        seq![loam_change_wire::STATUS_EVENTS] + bytes::le32(
            selected_count(a.slots, prefix, since, a.slots.len() as int) as u32,
        ) + body
    }
}

proof fn lemma_grows(s: Seq<Option<Binding>>, prefix: Seq<u8>, since: u64, n: int, m: int)
    requires
        0 <= n <= m,
    ensures
        selected_bytes(s, prefix, since, n).len() <= selected_bytes(s, prefix, since, m).len(),
        selected_count(s, prefix, since, m) <= m,
    decreases m,
{
    if n < m {
        lemma_grows(s, prefix, since, n, m - 1);
    } else if m > 0 {
        lemma_grows(s, prefix, since, m - 1, m - 1);
    }
}

fn header(status: u8, count: u32) -> (r: Vec<u8>)
    ensures
        r@ == seq![status] + bytes::le32(count),
{
    broadcast use bytes::lemma_write_first, bytes::lemma_write_next;

    let mut buf: [u8; 5] = [0u8; 5];
    bytes::put_u8(&mut buf, 0, status);
    bytes::put_u32(&mut buf, 1, count);
    proof {
        reveal(bytes::written);
    }
    let r: Vec<u8> = bytes::to_vec(buf.as_slice());
    assert(r@ =~= seq![status] + bytes::le32(count));
    r
}

fn encode_change(rev: u64, kind: u8, key: &[u8], value: &[u8]) -> (r: Vec<u8>)
    requires
        key@.len() <= 1024,
        value@.len() <= 96,
    ensures
        r@ == loam_change_wire::record_frame(rev, kind, key@, value@),
{
    let mut buf: [u8; loam_change_wire::REC_MAX] = [0u8; loam_change_wire::REC_MAX];
    let ghost before = buf@;
    proof {
        bytes::lemma_written_front(before, loam_change_wire::record_frame(rev, kind, key@, value@));
    }
    match loam_change_wire::encode_record(&mut buf, rev, kind, key, value) {
        Some(n) => bytes::front(buf.as_slice(), n),
        None => Vec::new(),
    }
}

fn encode_slot(slot: &BindingSlot, since: u64) -> (r: Vec<u8>)
    requires
        slot.wf(),
        slot@ is Some,
    ensures
        r@ == answered(slot@.unwrap(), since),
{
    if slot.kind == namespace_pic_state::KIND_TOMBSTONE {
        let none: [u8; 0] = [];
        assert(none@ =~= Seq::empty());
        encode_change(slot.change_rev, loam_change_wire::KIND_DELETED, slot.path(), none.as_slice())
    } else {
        let kind: u8 = if since == 0 {
            loam_change_wire::KIND_ADDED
        } else {
            loam_change_wire::KIND_MODIFIED
        };
        encode_change(slot.change_rev, kind, slot.path(), slot.object_id())
    }
}

/// What changed under a prefix since a position, in at most `room` bytes.
pub fn changes_since<const N: usize>(bindings: &PicNamespaceState<N>, prefix: &[u8], since: u64, room: usize) -> (r: Vec<u8>)
    requires
        bindings.wf(),
        N <= u32::MAX,
        room >= loam_change_wire::CHANGES_HEADER,
    ensures
        r@ == changes_answer(bindings@, prefix@, since, room as nat),
        r@.len() <= room,
{
    if (since != 0 && since < bindings.change_horizon()) || since > bindings.change_seq() {
        return header(loam_change_wire::STATUS_LOST, 0);
    }
    let ghost s = bindings@.slots;
    let mut body: Vec<u8> = Vec::new();
    let mut count: u32 = 0;
    let mut i: usize = 0;
    proof {
        lemma_grows(s, prefix@, since, 0, N as int);
    }
    while i < N
        invariant
            i <= N,
            N <= u32::MAX,
            bindings.wf(),
            s == bindings@.slots,
            !is_lost(bindings@, since),
            5 <= room,
            body@ == selected_bytes(s, prefix@, since, i as int),
            5 + body@.len() <= room,
            count == selected_count(s, prefix@, since, i as int),
            count <= i,
        decreases N - i,
    {
        proof {
            lemma_grows(s, prefix@, since, i + 1, N as int);
        }
        match bindings.slot_ref(i) {
            Some(slot) => {
                if slot.occupied && (since == 0 || slot.change_rev > since) && (since != 0
                    || slot.kind != namespace_pic_state::KIND_TOMBSTONE) && loam_change_wire::under_prefix(
                    slot.path(),
                    prefix,
                ) {
                    assert(is_selected(s[i as int], prefix@, since));
                    let rec: Vec<u8> = encode_slot(slot, since);
                    if rec.len() > room - 5 - body.len() {
                        return header(loam_change_wire::STATUS_LOST, 0);
                    }
                    bytes::append(&mut body, rec.as_slice());
                    count += 1;
                } else {
                    assert(!is_selected(s[i as int], prefix@, since));
                }
            },
            None => {},
        }
        i += 1;
    }
    let mut r: Vec<u8> = header(loam_change_wire::STATUS_EVENTS, count);
    bytes::append(&mut r, body.as_slice());
    r
}

/// An answer that is not a loss holds every change: the record of each binding that
/// takes part stands in it, whole.
pub proof fn lemma_no_change_is_left_out(s: Seq<Option<Binding>>, prefix: Seq<u8>, since: u64, n: int, i: int)
    requires
        0 <= i < n <= s.len(),
        is_selected(s[i], prefix, since),
    ensures
        ({
            let at = selected_bytes(s, prefix, since, i).len() as int;
            let rec = answered(s[i].unwrap(), since);
            &&& at + rec.len() <= selected_bytes(s, prefix, since, n).len()
            &&& selected_bytes(s, prefix, since, n).subrange(at, at + rec.len()) == rec
        }),
    decreases n,
{
    let at = selected_bytes(s, prefix, since, i).len() as int;
    let rec = answered(s[i].unwrap(), since);
    let whole = selected_bytes(s, prefix, since, n);
    if i == n - 1 {
        assert(whole.subrange(at, at + rec.len()) =~= rec);
    } else {
        lemma_no_change_is_left_out(s, prefix, since, n - 1, i);
        let before = selected_bytes(s, prefix, since, n - 1);
        assert(whole.subrange(at, at + rec.len()) =~= before.subrange(at, at + rec.len()));
    }
}

/// A position that the table has reached, and has forgotten nothing behind, is
/// answered with the changes behind it, whenever there is room for them.
pub proof fn lemma_answerable_is_answered(a: Arena, prefix: Seq<u8>, since: u64, room: nat)
    requires
        since <= a.change_seq,
        since == 0 || since >= a.change_horizon,
        5 + selected_bytes(a.slots, prefix, since, a.slots.len() as int).len() <= room,
    ensures
        changes_answer(a, prefix, since, room)[0] == loam_change_wire::STATUS_EVENTS,
        changes_answer(a, prefix, since, room).skip(5) == selected_bytes(
            a.slots,
            prefix,
            since,
            a.slots.len() as int,
        ),
{
    let body = selected_bytes(a.slots, prefix, since, a.slots.len() as int);
    assert(changes_answer(a, prefix, since, room).skip(5) =~= body);
}

/// An answer that is not a loss leaves out nothing that became of a key since the
/// position: the record of every key that stands for something else now is in it.
pub proof fn lemma_answer_tells_all(
    a: Arena,
    disk: Standing,
    past: Standing,
    prefix: Seq<u8>,
    since: u64,
    room: nat,
    root: Seq<u8>,
    path: Seq<u8>,
)
    requires
        since != 0,
        namespace_laws::tells(a, disk, past, since),
        changes_answer(a, prefix, since, room) != lost_answer(),
        namespace_laws::seen(a, disk, root, path) != past(root, path),
        prefix.is_prefix_of(path),
    ensures
        a.get(root, path) is Some,
        exists|at: int|
            5 <= at && at + answered(a.get(root, path).unwrap(), since).len() <= changes_answer(
                a,
                prefix,
                since,
                room,
            ).len() && #[trigger] changes_answer(a, prefix, since, room).subrange(
                at,
                at + answered(a.get(root, path).unwrap(), since).len(),
            ) == answered(a.get(root, path).unwrap(), since),
{
    namespace_laws::lemma_find_holds(a, root, path);
    let i = a.find(root, path).unwrap();
    let n = a.slots.len() as int;
    let rec = answered(a.slots[i].unwrap(), since);
    let body = selected_bytes(a.slots, prefix, since, n);
    let whole = changes_answer(a, prefix, since, room);
    lemma_no_change_is_left_out(a.slots, prefix, since, n, i);
    let at = selected_bytes(a.slots, prefix, since, i).len() as int;
    let head = seq![loam_change_wire::STATUS_EVENTS] + bytes::le32(selected_count(a.slots, prefix, since, n) as u32);
    assert(whole == head + body);
    assert(whole.subrange(5 + at, 5 + at + rec.len()) =~= body.subrange(at, at + rec.len()));
}

/// The records in an answer, one behind the other, as they are read: their position, kind,
/// key and value. `None` where they are not that many, or something is behind them.
pub open spec fn read_records(s: Seq<u8>, n: nat) -> Option<Seq<(u64, u8, Seq<u8>, Seq<u8>)>>
    decreases n,
{
    if n == 0 {
        if s.len() == 0 {
            Some(Seq::empty())
        } else {
            None
        }
    } else {
        match loam_change_wire::record_parse(s) {
            None => None,
            Some((rev, kind, key, value, len)) => match read_records(s.skip(len), (n - 1) as nat) {
                None => None,
                Some(rest) => Some(seq![(rev, kind, key, value)] + rest),
            },
        }
    }
}

spec fn frames(records: Seq<(u64, u8, Seq<u8>, Seq<u8>)>) -> Seq<u8>
    decreases records.len(),
{
    if records.len() == 0 {
        Seq::empty()
    } else {
        frames(records.drop_last()) + loam_change_wire::record_frame(
            records.last().0,
            records.last().1,
            records.last().2,
            records.last().3,
        )
    }
}

proof fn lemma_frames_first(records: Seq<(u64, u8, Seq<u8>, Seq<u8>)>)
    requires
        records.len() > 0,
    ensures
        frames(records) == loam_change_wire::record_frame(records[0].0, records[0].1, records[0].2, records[0].3)
            + frames(records.skip(1)),
    decreases records.len(),
{
    let f = loam_change_wire::record_frame(records[0].0, records[0].1, records[0].2, records[0].3);
    if records.len() == 1 {
        assert(records.drop_last() =~= Seq::empty());
        assert(records.skip(1) =~= Seq::empty());
        assert(frames(records.drop_last()) =~= Seq::<u8>::empty());
        assert(frames(records) =~= f + frames(records.skip(1)));
    } else {
        lemma_frames_first(records.drop_last());
        assert(records.drop_last().skip(1) =~= records.skip(1).drop_last());
        assert(frames(records) =~= f + frames(records.skip(1)));
    }
}

proof fn lemma_frames_are_read(records: Seq<(u64, u8, Seq<u8>, Seq<u8>)>)
    requires
        forall|k: int|
            0 <= k < records.len() ==> (#[trigger] records[k]).2.len() <= 0xFFFF && records[k].3.len() <= 0xFFFF_FFFF,
    ensures
        read_records(frames(records), records.len()) == Some(records),
    decreases records.len(),
{
    if records.len() > 0 {
        let (rev, kind, key, value) = records[0];
        let rest = records.skip(1);
        let f = loam_change_wire::record_frame(rev, kind, key, value);
        lemma_frames_first(records);
        assert(records[0].2.len() <= 0xFFFF);
        loam_change_wire::lemma_record_round_trip(rev, kind, key, value, frames(rest));
        assert((f + frames(rest)).skip(f.len() as int) =~= frames(rest));
        assert forall|k: int| 0 <= k < rest.len() implies (#[trigger] rest[k]).2.len() <= 0xFFFF && rest[k].3.len()
            <= 0xFFFF_FFFF by {
            assert(rest[k] == records[k + 1]);
        }
        lemma_frames_are_read(rest);
        assert(seq![(rev, kind, key, value)] + rest =~= records);
    } else {
        assert(records =~= Seq::empty());
    }
}

/// A binding is to be told to one who asks under a prefix what changed since a position:
/// its path lies under the prefix, and it changed behind the position. Who asks from the
/// beginning is told what is there, and no deletions.
pub open spec fn to_be_told(b: Binding, prefix: Seq<u8>, since: u64) -> bool {
    &&& prefix.len() <= b.path.len() && b.path.take(prefix.len() as int) == prefix
    &&& if since == 0 {
        b.kind != 0xFE
    } else {
        b.change_rev > since
    }
}

/// The record tells what became of a binding: where in the stream of changes, whether it
/// was added, modified or deleted, its path, and the object that it leads to.
pub open spec fn tells_of(record: (u64, u8, Seq<u8>, Seq<u8>), b: Binding, since: u64) -> bool {
    &&& record.0 == b.change_rev
    &&& record.2 == b.path
    &&& if b.kind == 0xFE {
        record.1 == 2 && record.3.len() == 0
    } else {
        record.1 == (if since == 0 {
            0u8
        } else {
            1u8
        }) && record.3 == b.object_id
    }
}

/// The record tells of one of the bindings that are to be told.
pub open spec fn is_due(
    s: Seq<Option<Binding>>,
    prefix: Seq<u8>,
    since: u64,
    record: (u64, u8, Seq<u8>, Seq<u8>),
) -> bool {
    exists|i: int|
        0 <= i < s.len() && (#[trigger] s[i]) is Some && to_be_told(s[i].unwrap(), prefix, since) && tells_of(
            record,
            s[i].unwrap(),
            since,
        )
}

/// One of the records tells of a binding.
pub open spec fn is_told(b: Binding, since: u64, records: Seq<(u64, u8, Seq<u8>, Seq<u8>)>) -> bool {
    exists|k: int| 0 <= k < records.len() && tells_of(#[trigger] records[k], b, since)
}

/// The records tell of the bindings that are to be told, of all of them and of nothing
/// else.
pub open spec fn is_window(
    s: Seq<Option<Binding>>,
    prefix: Seq<u8>,
    since: u64,
    records: Seq<(u64, u8, Seq<u8>, Seq<u8>)>,
) -> bool {
    &&& forall|k: int| 0 <= k < records.len() ==> is_due(s, prefix, since, #[trigger] records[k])
    &&& forall|i: int|
        0 <= i < s.len() && (#[trigger] s[i]) is Some && to_be_told(s[i].unwrap(), prefix, since) ==> is_told(
            s[i].unwrap(),
            since,
            records,
        )
}

spec fn record_for(b: Binding, since: u64) -> (u64, u8, Seq<u8>, Seq<u8>) {
    if b.kind == 0xFE {
        (b.change_rev, 2u8, b.path, Seq::empty())
    } else {
        (
            b.change_rev,
            if since == 0 {
                0u8
            } else {
                1u8
            },
            b.path,
            b.object_id,
        )
    }
}

proof fn lemma_selected(s: Seq<Option<Binding>>, prefix: Seq<u8>, since: u64, n: int) -> (records: Seq<
    (u64, u8, Seq<u8>, Seq<u8>),
>)
    requires
        0 <= n <= s.len(),
        forall|i: int|
            0 <= i < s.len() && (#[trigger] s[i]) is Some ==> s[i].unwrap().path.len() <= 1024
                && s[i].unwrap().object_id.len() <= 96,
    ensures
        frames(records) == selected_bytes(s, prefix, since, n),
        records.len() == selected_count(s, prefix, since, n),
        forall|k: int|
            0 <= k < records.len() ==> exists|i: int|
                0 <= i < n && (#[trigger] s[i]) is Some && to_be_told(s[i].unwrap(), prefix, since)
                    && #[trigger] records[k] == record_for(s[i].unwrap(), since),
        forall|i: int|
            0 <= i < n && (#[trigger] s[i]) is Some && to_be_told(s[i].unwrap(), prefix, since) ==> records.contains(
                record_for(s[i].unwrap(), since),
            ),
    decreases n,
{
    if n == 0 {
        Seq::empty()
    } else {
        let before = lemma_selected(s, prefix, since, n - 1);
        assert(s[n - 1] is Some ==> (is_selected(s[n - 1], prefix, since) <==> to_be_told(
            s[n - 1].unwrap(),
            prefix,
            since,
        ))) by {
            if s[n - 1] is Some {
                let path = s[n - 1].unwrap().path;
                if prefix.len() <= path.len() {
                    assert(path.take(prefix.len() as int) =~= path.subrange(0, prefix.len() as int));
                }
            }
        }
        if is_selected(s[n - 1], prefix, since) {
            let b = s[n - 1].unwrap();
            let rec = record_for(b, since);
            let records = before.push(rec);
            assert(records.drop_last() =~= before);
            assert forall|k: int| 0 <= k < records.len() implies exists|i: int|
                0 <= i < n && (#[trigger] s[i]) is Some && to_be_told(s[i].unwrap(), prefix, since)
                    && #[trigger] records[k] == record_for(s[i].unwrap(), since) by {
                if k < before.len() {
                    assert(records[k] == before[k]);
                } else {
                    assert(s[n - 1] is Some);
                }
            }
            assert forall|i: int|
                0 <= i < n && (#[trigger] s[i]) is Some && to_be_told(
                    s[i].unwrap(),
                    prefix,
                    since,
                ) implies records.contains(record_for(s[i].unwrap(), since)) by {
                let want = record_for(s[i].unwrap(), since);
                if i == n - 1 {
                    assert(records[before.len() as int] == want);
                } else {
                    let k = choose|k: int| 0 <= k < before.len() && before[k] == want;
                    assert(before.contains(want));
                    assert(records[k] == want);
                }
            }
            records
        } else {
            before
        }
    }
}

#[verifier::rlimit(40)]
#[verifier::spinoff_prover]
proof fn lemma_window_is_read(a: Arena, prefix: Seq<u8>, since: u64, room: nat) -> (records: Seq<
    (u64, u8, Seq<u8>, Seq<u8>),
>)
    requires
        a.wf(),
        a.slots.len() <= u32::MAX,
        changes_answer(a, prefix, since, room)[0] == 0,
    ensures
        ({
            let out = changes_answer(a, prefix, since, room);
            &&& out.len() <= room
            &&& read_records(out.skip(5), bytes::u32_at(out, 1) as nat) == Some(records)
        }),
        forall|k: int|
            0 <= k < records.len() ==> exists|i: int|
                0 <= i < a.slots.len() && (#[trigger] a.slots[i]) is Some && to_be_told(
                    a.slots[i].unwrap(),
                    prefix,
                    since,
                ) && #[trigger] records[k] == record_for(a.slots[i].unwrap(), since),
        forall|i: int|
            0 <= i < a.slots.len() && (#[trigger] a.slots[i]) is Some && to_be_told(
                a.slots[i].unwrap(),
                prefix,
                since,
            ) ==> records.contains(record_for(a.slots[i].unwrap(), since)),
{
    let n = a.slots.len() as int;
    let out = changes_answer(a, prefix, since, room);
    let records = lemma_selected(a.slots, prefix, since, n);
    lemma_grows(a.slots, prefix, since, 0, n);
    let body = selected_bytes(a.slots, prefix, since, n);
    let count = selected_count(a.slots, prefix, since, n) as u32;
    assert(out == seq![0u8] + bytes::le32(count) + body);
    assert(out.subrange(1, 5) =~= bytes::le32(count));
    bytes::lemma_u32_at(out, 1, count);
    assert(out.skip(5) =~= body);
    assert forall|k: int| 0 <= k < records.len() implies (#[trigger] records[k]).2.len() <= 0xFFFF
        && records[k].3.len() <= 0xFFFF_FFFF by {
        let i = choose|i: int|
            0 <= i < n && (#[trigger] a.slots[i]) is Some && to_be_told(a.slots[i].unwrap(), prefix, since)
                && records[k] == record_for(a.slots[i].unwrap(), since);
        assert(a.slots[i] is Some);
    }
    lemma_frames_are_read(records);
    records
}

/// An answer that is no loss can be read, and its records tell of the bindings under the
/// prefix that changed behind the position, of all of them and of nothing else.
#[verifier::rlimit(60)]
#[verifier::spinoff_prover]
pub proof fn lemma_window_is_of_the_prefix(a: Arena, prefix: Seq<u8>, since: u64, room: nat)
    requires
        a.wf(),
        a.slots.len() <= u32::MAX,
        changes_answer(a, prefix, since, room)[0] == 0,
    ensures
        changes_answer(a, prefix, since, room).len() <= room,
        ({
            let out = changes_answer(a, prefix, since, room);
            let records = read_records(out.skip(5), bytes::u32_at(out, 1) as nat);
            records is Some && is_window(a.slots, prefix, since, records.unwrap())
        }),
{
    let s = a.slots;
    let records = lemma_window_is_read(a, prefix, since, room);
    assert forall|k: int| 0 <= k < records.len() implies is_due(s, prefix, since, #[trigger] records[k]) by {
        let i = choose|i: int|
            0 <= i < s.len() && (#[trigger] s[i]) is Some && to_be_told(s[i].unwrap(), prefix, since)
                && records[k] == record_for(s[i].unwrap(), since);
        assert(tells_of(records[k], s[i].unwrap(), since));
    }
    assert forall|i: int|
        0 <= i < s.len() && (#[trigger] s[i]) is Some && to_be_told(s[i].unwrap(), prefix, since) implies is_told(
        s[i].unwrap(),
        since,
        records,
    ) by {
        let want = record_for(s[i].unwrap(), since);
        assert(records.contains(want));
        let k = choose|k: int| 0 <= k < records.len() && records[k] == want;
        assert(tells_of(records[k], s[i].unwrap(), since));
    }
}

} // verus!
