//! What a store of blobs promises across requests.
use crate::body_names;
use crate::body_names::PublishTier;
use crate::body_slots;
use crate::body_slots::Blob;
use crate::body_store_body;
use crate::body_store_body::{Act, PublishOutcome, Session, Store, Sweep};
use crate::loam_body_wire;
use crate::loam_ec_wire;
use crate::loam_extent_wire;
use crate::loam_hash;
use crate::sha256;
use vstd::prelude::*;

verus! {

/// A blob that is stored goes under the digest of its own bytes. It is staged under
/// another name where the provider can rename, and written in place otherwise.
pub proof fn lemma_put_names_the_content(s: Store, request: Seq<u8>)
    requires
        s.wf(),
    ensures
        s.put(request).1 matches Act::Publish { digest, path, staging, replace, keyed, body } ==> {
            &&& loam_body_wire::put_req_parse(request) == Ok::<Seq<u8>, loam_body_wire::WireError>(body)
            &&& digest == sha256::digest(body)
            &&& body_names::body_path(s.root, digest) == Some(path)
            &&& !keyed && !replace
            &&& staging is Some <==> body_names::tier_of(s.caps) == PublishTier::Rename
        },
{
}

/// A keyed blob goes under its key, whatever its bytes.
pub proof fn lemma_put_keyed_names_the_key(s: Store, request: Seq<u8>)
    requires
        s.wf(),
    ensures
        s.put_keyed(request).1 matches Act::Publish { digest, path, staging, replace, keyed, body } ==> {
            &&& loam_body_wire::put_keyed_req_parse(request) == Ok::<
                (Seq<u8>, Seq<u8>),
                loam_body_wire::WireError,
            >((digest, body))
            &&& body_names::body_path(s.root, digest) == Some(path)
            &&& keyed
            &&& staging is Some <==> body_names::tier_of(s.caps) == PublishTier::Rename
            &&& replace <==> staging is None
        },
{
}

/// Nothing is published by a provider that can make no name durable: a blob that is not
/// known is refused.
pub proof fn lemma_no_durable_name_no_put(s: Store, request: Seq<u8>, body: Seq<u8>)
    requires
        s.wf(),
        s.root.len() > 0,
        body_names::tier_of(s.caps) == PublishTier::Unavailable,
        loam_body_wire::put_req_parse(request) == Ok::<Seq<u8>, loam_body_wire::WireError>(body),
        body_slots::get(s.slots, sha256::digest(body)) is None,
    ensures
        s.put(request).1 is Done,
        s.put(request).0.owed == loam_body_wire::nak_frame(loam_body_wire::ERR_IO),
        s.put(request).0.slots == s.slots,
{
}

/// A blob that was stored is known with its size. One that could not be published is
/// refused, and the table stays as it was.
pub proof fn lemma_published_is_known(s: Store, digest: Seq<u8>, size: u32, keyed: bool, outcome: PublishOutcome)
    requires
        s.wf(),
    ensures
        ({
            let t = s.published(digest, size, keyed, outcome);
            if t.owed[0] == loam_body_wire::OP_NAK {
                t.slots == s.slots && (outcome is Published ==> !body_slots::recorded(s.slots, digest, size, keyed).1)
            } else {
                outcome is Published && body_slots::get(t.slots, digest) == Some(Blob { digest, size, keyed })
            }
        }),
{
    body_slots::lemma_recorded_is_known(s.slots, digest, size, keyed);
}

/// What the table does not know is served only if it belongs to the key, and then it is
/// served as it was read.
pub proof fn lemma_served_is_verified(s: Store, digest: Seq<u8>, body: Seq<u8>)
    requires
        s.wf(),
    ensures
        ({
            let t = s.got(digest, None, Some(body));
            if body_store_body::belongs(body, digest) is Some {
                t.owed == loam_body_wire::get_resp_frame(body)
            } else {
                t.owed == loam_body_wire::nak_frame(loam_body_wire::ERR_NOT_FOUND) && t.slots == s.slots
            }
        }),
{
}

/// The bytes that were stored under their digest are served again when the table is
/// lost.
pub proof fn lemma_stored_body_is_served(s: Store, body: Seq<u8>)
    requires
        s.wf(),
    ensures
        s.got(sha256::digest(body), None, Some(body)).owed == loam_body_wire::get_resp_frame(body),
{
}

/// A shard that was stored under its derived key is served again when the table is lost.
pub proof fn lemma_stored_shard_is_served(
    s: Store,
    k: u8,
    m: u8,
    index: u8,
    body_len: u32,
    body_digest: Seq<u8>,
    shard: Seq<u8>,
)
    requires
        s.wf(),
        body_digest.len() == 32,
        shard.len() <= u32::MAX,
    ensures
        ({
            let blob = loam_ec_wire::shard_frame(k, m, index, body_len, body_digest, shard);
            let key = sha256::digest(loam_ec_wire::shard_key_input(body_digest, index));
            s.got(key, None, Some(blob)).owed == loam_body_wire::get_resp_frame(blob)
        }),
{
    loam_ec_wire::lemma_shard_matches_derived_key(k, m, index, body_len, body_digest, shard);
}

/// An extent that was stored under its key is served again when the table is lost.
pub proof fn lemma_stored_extent_is_served(s: Store, key: Seq<u8>, payload: Seq<u8>)
    requires
        s.wf(),
        key.len() == 32,
        payload.len() <= loam_extent_wire::MAX_EXTENT_SIZE,
    ensures
        ({
            let blob = loam_extent_wire::extent_frame(key, payload);
            s.got(key, None, Some(blob)).owed == loam_body_wire::get_resp_frame(blob)
        }),
{
    loam_extent_wire::lemma_extent_round_trip(key, payload);
}

/// A blob counts as removed only if it is provably gone: otherwise the request is refused
/// and the blob stays known. What is removed is not known any more, and the others are.
pub proof fn lemma_delete_is_proved(s: Store, digest: Seq<u8>, unlinked: bool, gone: bool, other: Seq<u8>)
    requires
        s.wf(),
        other != digest,
    ensures
        ({
            let t = s.deleted(digest, unlinked, gone);
            &&& !gone ==> t.slots == s.slots && t.owed == loam_body_wire::nak_frame(loam_body_wire::ERR_IO)
            &&& gone ==> body_slots::get(t.slots, digest) is None && t.owed == loam_body_wire::delete_resp_frame(
                unlinked || body_slots::get(s.slots, digest) is Some,
            )
            &&& body_slots::get(t.slots, other) == body_slots::get(s.slots, other)
        }),
{
    body_slots::lemma_cleared_is_unknown(s.slots, digest, other);
}

/// The chunks one behind the other.
pub open spec fn joined(chunks: Seq<Seq<u8>>) -> Seq<u8>
    decreases chunks.len(),
{
    if chunks.len() == 0 {
        Seq::empty()
    } else {
        joined(chunks.drop_last()) + chunks.last()
    }
}

/// The store after these chunks were added to a streamed write.
pub open spec fn appended(s: Store, wid: int, chunks: Seq<Seq<u8>>) -> Store
    decreases chunks.len(),
{
    if chunks.len() == 0 {
        s
    } else {
        appended(s, wid, chunks.drop_last()).wappended(wid, chunks.last(), true).0
    }
}

/// A streamed write holds what arrived, in the order in which it arrived, and goes on to
/// be published only if that is as long as was announced and hashes to what was
/// promised.
pub proof fn lemma_stream_is_what_arrived(
    s: Store,
    wid: int,
    digest: Seq<u8>,
    total_len: u64,
    fd: i32,
    chunks: Seq<Seq<u8>>,
)
    requires
        s.wf(),
        0 <= wid < s.sessions.len(),
        fd >= 0,
        total_len <= loam_body_wire::MAX_STREAM_TOTAL,
        joined(chunks).len() <= total_len,
    ensures
        ({
            let t = appended(s.wopened(wid, digest, total_len, fd), wid, chunks);
            let committed = t.wcommit(loam_body_wire::wcommit_req_frame(wid as u8)).1;
            &&& t.sessions[wid].data == joined(chunks)
            &&& t.sessions[wid].written == joined(chunks).len()
            &&& t.has_session(wid)
            &&& if joined(chunks).len() == total_len && sha256::digest(joined(chunks)) == digest {
                committed == Act::Sync { wid, fd, digest }
            } else {
                committed is Discard
            }
        }),
{
    lemma_appended(s, wid, digest, total_len, fd, chunks);
    let frame = loam_body_wire::wcommit_req_frame(wid as u8);
    assert(loam_body_wire::wid_parse(frame, loam_body_wire::OP_WCOMMIT) == Ok::<u8, loam_body_wire::WireError>(
        wid as u8,
    ));
}

proof fn lemma_appended(s: Store, wid: int, digest: Seq<u8>, total_len: u64, fd: i32, chunks: Seq<Seq<u8>>)
    requires
        s.wf(),
        0 <= wid < s.sessions.len(),
        fd >= 0,
        total_len <= loam_body_wire::MAX_STREAM_TOTAL,
        joined(chunks).len() <= total_len,
    ensures
        ({
            let t = appended(s.wopened(wid, digest, total_len, fd), wid, chunks);
            &&& t.sessions.len() == s.sessions.len()
            &&& t.sessions[wid] == Session {
                in_use: true,
                sealed: false,
                fd,
                expect: digest,
                total_len,
                written: joined(chunks).len() as u64,
                last_tick: t.sessions[wid].last_tick,
                data: joined(chunks),
            }
        }),
    decreases chunks.len(),
{
    if chunks.len() > 0 {
        lemma_appended(s, wid, digest, total_len, fd, chunks.drop_last());
    }
}

/// An announced length is never exceeded: a chunk that would do so ends the write, and
/// nothing of it is published.
pub proof fn lemma_too_much_ends_the_stream(s: Store, wid: u8, chunk: Seq<u8>)
    requires
        s.wf(),
        s.has_session(wid as int),
        1 <= chunk.len() <= loam_body_wire::MAX_BODY,
        s.sessions[wid as int].written + chunk.len() > s.sessions[wid as int].total_len,
    ensures
        ({
            let t = s.wappend(loam_body_wire::wappend_req_frame(wid, chunk)).0;
            &&& !t.has_session(wid as int)
            &&& t.owed == loam_body_wire::nak_frame(loam_body_wire::ERR_TOO_LARGE)
            &&& t.slots == s.slots
        }),
{
    loam_body_wire::lemma_wappend_req_round_trip(wid, chunk, Seq::empty());
    let f = loam_body_wire::wappend_req_frame(wid, chunk);
    assert(f + Seq::<u8>::empty() =~= f);
}

/// A sweep of the directory removes no blob, and no file of a streamed write that goes
/// on.
pub proof fn lemma_sweep_keeps_what_counts(s: Store, is_dir: bool, name: Seq<u8>, digest: Seq<u8>, wid: int)
    requires
        s.wf(),
        digest.len() == 32,
        0 <= wid < s.sessions.len(),
        s.sessions[wid].in_use,
    ensures
        s.swept(is_dir, name) matches Sweep::Remove { path } ==> Some(path) != body_names::body_path(s.root, digest)
            && Some(path) != body_names::wip_path(s.root, wid as u8),
{
    let r = s.root.len() as int;
    if let Sweep::Remove { path } = s.swept(is_dir, name) {
        let blob = s.root + seq![0x2Fu8] + loam_body_wire::hex_of(digest);
        assert(blob[r + 1] == loam_body_wire::hex_of(digest)[0]);
        assert(loam_body_wire::hex_of(digest)[0] == loam_hash::hex_digit(digest[0] as int / 16));
        let live = s.root + seq![0x2Fu8] + body_names::wip_prefix() + seq![(0x30 + wid % 10) as u8];
        assert(live[r + 6] == 0x30 + wid);
        assert(live[r + 2] == 0x77);
        if body_names::wip_id(name) is Some {
            let gone = body_names::wip_id(name).unwrap();
            assert(path[r + 1] == 0x2E);
            assert(path[r + 6] == 0x30 + gone);
        } else {
            assert(name.take(5)[0] == name[0] && name.take(5)[1] == name[1]);
            assert(path[r + 1] == name[0]);
            assert(path[r + 2] == name[1]);
        }
    }
}

/// A sweep over entries of the directory, where `seen` is what looking at a blob gives:
/// the store after it, and whether it came to the end.
pub open spec fn sweep(s: Store, entries: Seq<(bool, Seq<u8>)>, seen: spec_fn(Seq<u8>) -> Option<(u32, Seq<u8>)>) -> (
    Store,
    bool,
)
    decreases entries.len(),
{
    if entries.len() == 0 {
        (s, true)
    } else {
        let (t, whole) = sweep(s, entries.drop_last(), seen);
        if !whole {
            (t, false)
        } else {
            match t.swept(entries.last().0, entries.last().1) {
                Sweep::Look { digest, path } => t.looked(digest, seen(digest)),
                _ => (t, true),
            }
        }
    }
}

/// The entry is the file of a blob.
pub open spec fn is_blob_entry(entry: (bool, Seq<u8>), digest: Seq<u8>) -> bool {
    !entry.0 && body_names::name_digest(entry.1) == Some(digest)
}

proof fn lemma_blob_is_looked_at(s: Store, name: Seq<u8>, digest: Seq<u8>)
    requires
        body_names::name_digest(name) == Some(digest),
        body_slots::get(s.slots, digest) is None,
        body_names::body_path(s.root, digest) is Some,
    ensures
        s.swept(false, name) == (Sweep::Look { digest, path: body_names::body_path(s.root, digest).unwrap() }),
{
    assert(loam_hash::hex_digit_value(name[0]) is Some);
    assert(name.take(5)[0] == name[0]);
    assert(body_names::pub_prefix()[0] == 0x2E);
    assert(body_names::wip_prefix()[0] == 0x2E);
}

/// A sweep that comes to its end has made every blob in the directory known: one that the
/// table knew stays as it was, and another has its size, whatever that is, and whether its
/// first bytes say that it is stored under a key. What was known stays, slot by slot, and
/// nothing else becomes known.
pub proof fn lemma_sweep_makes_known(
    s: Store,
    entries: Seq<(bool, Seq<u8>)>,
    seen: spec_fn(Seq<u8>) -> Option<(u32, Seq<u8>)>,
)
    requires
        s.wf(),
        sweep(s, entries, seen).1,
    ensures
        ({
            let t = sweep(s, entries, seen).0;
            &&& t.root == s.root
            &&& body_slots::sound(t.slots)
            &&& t.slots.len() == s.slots.len()
            &&& forall|i: int| 0 <= i < s.slots.len() && (#[trigger] s.slots[i]).is_some() ==> t.slots[i] == s.slots[i]
            &&& forall|j: int, digest: Seq<u8>|
                #![trigger is_blob_entry(entries[j], digest)]
                0 <= j < entries.len() && is_blob_entry(entries[j], digest) && seen(digest) is Some
                    && body_names::body_path(s.root, digest) is Some ==> body_slots::get(t.slots, digest) == Some(
                    told(s, digest, seen),
                )
            &&& forall|digest: Seq<u8>|
                #![trigger body_slots::get(t.slots, digest)]
                body_slots::get(t.slots, digest) == body_slots::get(s.slots, digest) || (exists|j: int|
                    0 <= j < entries.len() && is_blob_entry(#[trigger] entries[j], digest)) && seen(digest) is Some
                    && body_slots::get(t.slots, digest) == Some(told(s, digest, seen))
        }),
    decreases entries.len(),
{
    if entries.len() > 0 {
        let before = entries.drop_last();
        lemma_sweep_makes_known(s, before, seen);
        let u = sweep(s, before, seen).0;
        let t = sweep(s, entries, seen).0;
        let n = entries.len() - 1;
        let (is_dir, name) = entries[n];
        match u.swept(is_dir, name) {
            Sweep::Look { digest, path } => {
                if let Some((size, magic)) = seen(digest) {
                    let keyed = loam_extent_wire::is_keyed_magic(magic);
                    body_slots::lemma_recorded_is_known(u.slots, digest, size, keyed);
                    assert(is_blob_entry(entries[n], digest));
                    assert forall|other: Seq<u8>| other != digest implies #[trigger] body_slots::get(t.slots, other)
                        == body_slots::get(u.slots, other) by {
                        body_slots::lemma_recorded_keeps_others(u.slots, digest, size, keyed, other);
                    }
                    assert(forall|i: int|
                        0 <= i < u.slots.len() && (#[trigger] u.slots[i]).is_some() ==> t.slots[i] == u.slots[i]) by {
                        let other = digest.push(0);
                        assert(other.len() != digest.len());
                        body_slots::lemma_recorded_keeps_others(u.slots, digest, size, keyed, other);
                    }
                }
            },
            _ => {},
        }
        assert forall|j: int, digest: Seq<u8>|
            #![trigger is_blob_entry(entries[j], digest)]
            0 <= j < entries.len() && is_blob_entry(entries[j], digest) && seen(digest) is Some
                && body_names::body_path(s.root, digest) is Some implies body_slots::get(t.slots, digest) == Some(
            told(s, digest, seen),
        ) by {
            if j < n {
                assert(before[j] == entries[j]);
                assert(is_blob_entry(before[j], digest));
            } else if body_slots::get(u.slots, digest) is None {
                lemma_blob_is_looked_at(u, name, digest);
            } else {
                assert(body_slots::get(u.slots, digest) == body_slots::get(s.slots, digest) || body_slots::get(
                    u.slots,
                    digest,
                ) == Some(told(s, digest, seen)));
            }
        }
        assert forall|digest: Seq<u8>|
            #![trigger body_slots::get(t.slots, digest)]
            body_slots::get(t.slots, digest) == body_slots::get(s.slots, digest) || (exists|j: int|
                0 <= j < entries.len() && is_blob_entry(#[trigger] entries[j], digest)) && seen(digest) is Some
                && body_slots::get(t.slots, digest) == Some(told(s, digest, seen)) by {
            let known = body_slots::get(u.slots, digest);
            if known != body_slots::get(s.slots, digest) {
                let j = choose|j: int| 0 <= j < before.len() && is_blob_entry(#[trigger] before[j], digest);
                assert(is_blob_entry(entries[j], digest));
            }
        }
    }
}

/// What a sweep has a blob known as.
pub open spec fn told(s: Store, digest: Seq<u8>, seen: spec_fn(Seq<u8>) -> Option<(u32, Seq<u8>)>) -> Blob {
    match body_slots::get(s.slots, digest) {
        Some(b) => b,
        None => Blob {
            digest,
            size: seen(digest).unwrap().0,
            keyed: loam_extent_wire::is_keyed_magic(seen(digest).unwrap().1),
        },
    }
}

/// An answer that the channel takes in parts goes out whole and in order, and nothing is
/// owed once it is out.
pub proof fn lemma_answer_goes_out_whole(s: Store, n: int)
    requires
        0 <= n <= s.owed.len(),
    ensures
        s.owed.take(n) + s.sent(n).owed == s.owed,
        n == s.owed.len() ==> s.sent(n).owed.len() == 0,
{
    assert(s.owed.take(n) + s.sent(n).owed =~= s.owed);
}

/// A streamed write that was published is acknowledged with its digest, and is known with
/// its length, wherever there is room in the table: a request for its size is answered with
/// the number of bytes that were written, and a request for it reads so many bytes and
/// serves them.
#[verifier::rlimit(40)]
#[verifier::spinoff_prover]
pub proof fn lemma_streamed_is_known(s: Store, wid: int, digest: Seq<u8>, written: u64, i: int, body: Seq<u8>)
    requires
        s.wf(),
        digest.len() == 32,
        written <= u32::MAX,
        0 <= wid < s.sessions.len(),
        0 <= i < s.slots.len(),
        s.slots[i] is None || s.slots[i].unwrap().digest == digest,
        body.len() == written,
    ensures
        forall|t: Store|
            t == s.wpublished(digest, written, true) || t == s.wcopied(wid, digest, written, true).0 ==> {
                &&& #[trigger] t.owed == seq![0x38u8] + digest
                &&& body_slots::get(t.slots, digest) == Some(Blob { digest, size: written as u32, keyed: false })
                &&& t.head(loam_body_wire::head_req_frame(digest)).1 is Done
                &&& t.head(loam_body_wire::head_req_frame(digest)).0.owed == loam_body_wire::head_resp_frame(written)
                &&& written <= 61440 && s.root.len() > 0 ==> {
                    let act = t.get(loam_body_wire::get_req_frame(digest)).1;
                    match body_names::body_path(s.root, digest) {
                        Some(path) => act == Act::Read { digest, path, size: Some(written as u32) },
                        None => act is Done,
                    }
                }
                &&& t.got(digest, Some(written as u32), Some(body)).owed == loam_body_wire::get_resp_frame(body)
            },
{
    body_slots::lemma_room_is_used(s.slots, digest, written as u32, false, i);
    let h = loam_body_wire::head_req_frame(digest);
    loam_body_wire::lemma_head_req_round_trip(digest, Seq::empty());
    assert(h + Seq::<u8>::empty() =~= h);
    let g = loam_body_wire::get_req_frame(digest);
    loam_body_wire::lemma_get_req_round_trip(digest, Seq::empty());
    assert(g + Seq::<u8>::empty() =~= g);
    assert(loam_body_wire::wcommit_resp_frame(digest) =~= seq![0x38u8] + digest);
}

/// A streamed write that is whole goes, once it is durable, under the name of its digest,
/// with as many bytes as were written; where it could not be made durable it is refused.
pub proof fn lemma_stream_goes_under_its_digest(s: Store, wid: int, digest: Seq<u8>, ok: bool)
    requires
        s.wf(),
        0 <= wid < s.sessions.len(),
    ensures
        match s.wsynced(wid, digest, ok).1 {
            Act::Rename { fd, from, to, digest: under, written } => {
                &&& ok
                &&& body_names::tier_of(s.caps) == PublishTier::Rename
                &&& fd == s.sessions[wid].fd
                &&& Some(from) == body_names::wip_path(s.root, wid as u8)
                &&& Some(to) == body_names::body_path(s.root, digest)
                &&& under == digest
                &&& written == s.sessions[wid].written
            },
            Act::Copy { wid: w, fd, to, digest: under, written } => {
                &&& ok
                &&& w == wid
                &&& fd == s.sessions[wid].fd
                &&& Some(to) == body_names::body_path(s.root, digest)
                &&& under == digest
                &&& written == s.sessions[wid].written
            },
            _ => s.wsynced(wid, digest, ok).0.owed == seq![0xFFu8, 3u8],
        },
        !ok ==> s.wsynced(wid, digest, ok).0.owed == seq![0xFFu8, 3u8],
{
    assert(loam_body_wire::nak_frame(loam_body_wire::ERR_IO) =~= seq![0xFFu8, 3u8]);
}

} // verus!
