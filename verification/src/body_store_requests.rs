//! What each request to the store of blobs comes to: what is done for it, and what it is
//! answered.
use crate::body_names;
use crate::body_names::PublishTier;
use crate::body_slots;
use crate::body_slots::Blob;
use crate::body_store_body;
use crate::body_store_body::{Act, PublishOutcome, Session, Store};
use crate::loam_body_wire;
use crate::sha256;
use vstd::prelude::*;

verus! {

proof fn lemma_plain(frame: Seq<u8>)
    ensures
        frame + Seq::<u8>::empty() == frame,
{
    assert(frame + Seq::<u8>::empty() =~= frame);
}

/// The name of a blob in a directory: its digest in hex.
pub open spec fn names(path: Seq<u8>, root: Seq<u8>, digest: Seq<u8>) -> bool {
    path == root + seq![0x2Fu8] + loam_body_wire::hex_of(digest)
}

/// The directory can hold blobs.
pub open spec fn has_directory(s: Store) -> bool {
    0 < s.root.len() <= 191
}

/// A body that is not known is published under the digest of its bytes, wherever names can
/// be made durable, and is acknowledged with that digest once it is. One that is known is
/// acknowledged at once.
pub proof fn lemma_put_stores(s: Store, body: Seq<u8>, i: int)
    requires
        s.wf(),
        has_directory(s),
        body.len() <= 61440,
        0 <= i < s.slots.len(),
        s.slots[i] is None,
    ensures
        ({
            let digest = sha256::digest(body);
            let (t, act) = s.take(loam_body_wire::put_req_frame(body));
            if body_slots::get(s.slots, digest) is Some {
                act is Done && t.owed == seq![0x30u8] + digest && t.slots == s.slots
            } else if body_names::tier_of(s.caps) == PublishTier::Unavailable {
                act is Done && t.owed == seq![0xFFu8, 3u8] && t.slots == s.slots
            } else {
                &&& act matches Act::Publish { digest: under, path, staging, replace, keyed, body: bytes }
                &&& under == digest && bytes == body && names(path, s.root, digest) && !keyed && !replace
                &&& t.slots == s.slots
            }
        }),
        ({
            let digest = sha256::digest(body);
            let t = s.published(digest, body.len() as u32, false, PublishOutcome::Published);
            &&& t.owed == seq![0x30u8] + digest
            &&& body_slots::get(t.slots, digest) == Some(Blob { digest, size: body.len() as u32, keyed: false })
        }),
{
    let f = loam_body_wire::put_req_frame(body);
    loam_body_wire::lemma_put_req_round_trip(body, Seq::empty());
    lemma_plain(f);
    let digest = sha256::digest(body);
    body_slots::lemma_room_is_used(s.slots, digest, body.len() as u32, false, i);
    assert(loam_body_wire::put_resp_frame(digest) =~= seq![0x30u8] + digest);
    assert(loam_body_wire::nak_frame(3) =~= seq![0xFFu8, 3u8]);
}

/// A body for a key is published under that key, whatever its bytes, and is acknowledged
/// with the key once it is.
pub proof fn lemma_put_keyed_stores(s: Store, key: Seq<u8>, body: Seq<u8>, i: int)
    requires
        s.wf(),
        has_directory(s),
        key.len() == 32,
        body.len() <= 61440,
        0 <= i < s.slots.len(),
        s.slots[i] is None,
    ensures
        ({
            let (t, act) = s.take(loam_body_wire::put_keyed_req_frame(key, body));
            if body_names::tier_of(s.caps) == PublishTier::Unavailable {
                act is Done && t.owed == seq![0xFFu8, 3u8] && t.slots == s.slots
            } else {
                &&& act matches Act::Publish { digest, path, staging, replace, keyed, body: bytes }
                &&& digest == key && bytes == body && names(path, s.root, key) && keyed
                &&& t.slots == s.slots
            }
        }),
        ({
            let t = s.published(key, body.len() as u32, true, PublishOutcome::Published);
            &&& t.owed == seq![0x35u8] + key
            &&& body_slots::get(t.slots, key) == Some(Blob { digest: key, size: body.len() as u32, keyed: true })
        }),
{
    let f = loam_body_wire::put_keyed_req_frame(key, body);
    loam_body_wire::lemma_put_keyed_req_round_trip(key, body, Seq::empty());
    lemma_plain(f);
    body_slots::lemma_room_is_used(s.slots, key, body.len() as u32, true, i);
    assert(loam_body_wire::put_keyed_resp_frame(key) =~= seq![0x35u8] + key);
    assert(loam_body_wire::nak_frame(3) =~= seq![0xFFu8, 3u8]);
}

/// A request for a blob reads the file that is named by its digest, and serves what was read
/// if it is as long as the table says. One that is too long to be served at once, or that is
/// not there, is refused.
pub proof fn lemma_get_serves(s: Store, digest: Seq<u8>, body: Seq<u8>)
    requires
        s.wf(),
        has_directory(s),
        digest.len() == 32,
        body.len() <= 61440,
    ensures
        ({
            let (t, act) = s.take(loam_body_wire::get_req_frame(digest));
            match body_slots::get(s.slots, digest) {
                Some(b) => if b.size > 61440 {
                    act is Done && t.owed == seq![0xFFu8, 2u8]
                } else {
                    &&& act matches Act::Read { digest: of, path, size }
                    &&& of == digest && names(path, s.root, digest) && size == Some(b.size)
                },
                None => {
                    &&& act matches Act::Read { digest: of, path, size }
                    &&& of == digest && names(path, s.root, digest) && size is None
                },
            }
        }),
        s.got(digest, Some(body.len() as u32), Some(body)).owed == loam_body_wire::get_resp_frame(body),
        forall|n: u32|
            n != body.len() ==> #[trigger] s.got(digest, Some(n), Some(body)).owed == seq![0xFFu8, 3u8],
        forall|size: Option<u32>| #[trigger] s.got(digest, size, None).owed == seq![0xFFu8, 1u8],
{
    let f = loam_body_wire::get_req_frame(digest);
    loam_body_wire::lemma_get_req_round_trip(digest, Seq::empty());
    lemma_plain(f);
    assert(loam_body_wire::nak_frame(1) =~= seq![0xFFu8, 1u8]);
    assert(loam_body_wire::nak_frame(2) =~= seq![0xFFu8, 2u8]);
    assert(loam_body_wire::nak_frame(3) =~= seq![0xFFu8, 3u8]);
}

/// A request for the size of a blob is answered from the table, and where the table does not
/// know it, from the file that is named by its digest: with its size, or that it is not
/// there, or that it is too large.
pub proof fn lemma_head_tells_the_size(s: Store, digest: Seq<u8>, size: u32, magic: Seq<u8>)
    requires
        s.wf(),
        has_directory(s),
        digest.len() == 32,
    ensures
        ({
            let (t, act) = s.take(loam_body_wire::head_req_frame(digest));
            match body_slots::get(s.slots, digest) {
                Some(b) => act is Done && t.owed == loam_body_wire::head_resp_frame(b.size as u64),
                None => act matches Act::Stat { digest: of, path } && of == digest && names(path, s.root, digest),
            }
        }),
        s.headed(digest, Some((size, magic))).owed == if size <= 61440 {
            loam_body_wire::head_resp_frame(size as u64)
        } else {
            seq![0xFFu8, 2u8]
        },
        s.headed(digest, None).owed == seq![0xFFu8, 1u8],
{
    let f = loam_body_wire::head_req_frame(digest);
    loam_body_wire::lemma_head_req_round_trip(digest, Seq::empty());
    lemma_plain(f);
    assert(loam_body_wire::nak_frame(1) =~= seq![0xFFu8, 1u8]);
    assert(loam_body_wire::nak_frame(2) =~= seq![0xFFu8, 2u8]);
}

/// A request to remove a blob removes the file that is named by its digest.
pub proof fn lemma_delete_removes(s: Store, digest: Seq<u8>)
    requires
        s.wf(),
        has_directory(s),
        digest.len() == 32,
    ensures
        ({
            let act = s.take(loam_body_wire::delete_req_frame(digest)).1;
            &&& act matches Act::Unlink { digest: of, path, fence }
            &&& of == digest && names(path, s.root, digest)
        }),
{
    let f = loam_body_wire::delete_req_frame(digest);
    loam_body_wire::lemma_delete_req_round_trip(digest, Seq::empty());
    lemma_plain(f);
}

/// A request for a part of a blob reads that part of the file that is named by its digest,
/// and serves what was read.
pub proof fn lemma_range_serves(s: Store, digest: Seq<u8>, off: u64, len: u32, part: Seq<u8>, errno: u8)
    requires
        s.wf(),
        has_directory(s),
        digest.len() == 32,
    ensures
        ({
            let act = s.take(loam_body_wire::range_req_frame(digest, off, len)).1;
            &&& act matches Act::ReadRange { path, off: from, want }
            &&& names(path, s.root, digest) && from == off && want == len
        }),
        s.ranged(Ok(part)).owed == loam_body_wire::range_resp_frame(part),
        s.ranged(Err(errno)).owed == seq![0xFFu8, errno],
{
    let f = loam_body_wire::range_req_frame(digest, off, len);
    loam_body_wire::lemma_range_req_round_trip(digest, off, len, Seq::empty());
    lemma_plain(f);
    assert(loam_body_wire::nak_frame(errno) =~= seq![0xFFu8, errno]);
}

/// A streamed write is opened for the digest and the length that it announces, in the first
/// place that is free, and is acknowledged with the number of that place.
pub proof fn lemma_stream_opens(s: Store, digest: Seq<u8>, total_len: u64, wid: int, fd: i32)
    requires
        s.wf(),
        has_directory(s),
        digest.len() == 32,
        1 <= total_len <= 0x4000_0000,
        0 <= wid < s.sessions.len(),
        !s.sessions[wid].in_use,
        forall|i: int| 0 <= i < wid ==> (#[trigger] s.sessions[i]).in_use,
        fd >= 0,
    ensures
        ({
            let act = s.take(loam_body_wire::wopen_req_frame(digest, total_len)).1;
            &&& act matches Act::Open { wid: at, path, digest: of, total_len: len }
            &&& at == wid && of == digest && len == total_len
        }),
        ({
            let t = s.wopened(wid, digest, total_len, fd);
            &&& t.owed == seq![0x36u8, wid as u8]
            &&& t.has_session(wid)
            &&& t.sessions[wid].expect == digest && t.sessions[wid].total_len == total_len
            &&& t.sessions[wid].written == 0 && t.sessions[wid].fd == fd
        }),
{
    let f = loam_body_wire::wopen_req_frame(digest, total_len);
    loam_body_wire::lemma_wopen_req_round_trip(digest, total_len, Seq::empty());
    lemma_plain(f);
    lemma_free_session_is(s.sessions, 0, wid);
    assert(loam_body_wire::wopen_resp_frame(wid as u8) =~= seq![0x36u8, wid as u8]);
}

proof fn lemma_free_session_is(s: Seq<Session>, from: int, wid: int)
    requires
        0 <= from <= wid < s.len(),
        !s[wid].in_use,
        forall|i: int| 0 <= i < wid ==> (#[trigger] s[i]).in_use,
    ensures
        body_store_body::free_session(s, from) == Some(wid),
    decreases wid - from,
{
    if from < wid {
        assert(s[from].in_use);
        lemma_free_session_is(s, from + 1, wid);
    }
}

/// A chunk that still fits what was announced is added to the file of its write, and is
/// acknowledged. To a write that is not open nothing is added.
pub proof fn lemma_chunk_is_added(s: Store, wid: u8, chunk: Seq<u8>)
    requires
        s.wf(),
        1 <= chunk.len() <= 61440,
    ensures
        ({
            let (t, act) = s.take(loam_body_wire::wappend_req_frame(wid, chunk));
            if !s.has_session(wid as int) {
                act is Done && t.owed == seq![0xFFu8, 4u8]
            } else if s.sessions[wid as int].written + chunk.len() <= s.sessions[wid as int].total_len {
                act == Act::Append { wid: wid as int, fd: s.sessions[wid as int].fd, chunk }
            } else {
                t.owed == seq![0xFFu8, 2u8] && !t.has_session(wid as int)
            }
        }),
        s.has_session(wid as int) ==> {
            &&& s.wappended(wid as int, chunk, true).0.owed == seq![0x37u8, wid]
            &&& s.wappended(wid as int, chunk, true).1 is Done
            &&& s.wappended(wid as int, chunk, false).0.owed == seq![0xFFu8, 3u8]
            &&& !s.wappended(wid as int, chunk, false).0.has_session(wid as int)
        },
{
    let f = loam_body_wire::wappend_req_frame(wid, chunk);
    loam_body_wire::lemma_wappend_req_round_trip(wid, chunk, Seq::empty());
    lemma_plain(f);
    assert(loam_body_wire::wappend_resp_frame(wid) =~= seq![0x37u8, wid]);
    assert(loam_body_wire::nak_frame(2) =~= seq![0xFFu8, 2u8]);
    assert(loam_body_wire::nak_frame(3) =~= seq![0xFFu8, 3u8]);
    assert(loam_body_wire::nak_frame(4) =~= seq![0xFFu8, 4u8]);
}

/// A write that is given up is open no more, and its file goes. To give up one that is not
/// open does nothing.
pub proof fn lemma_abort_gives_up(s: Store, wid: u8)
    requires
        s.wf(),
    ensures
        ({
            let (t, act) = s.take(loam_body_wire::wabort_req_frame(wid));
            &&& t.owed == seq![0x39u8]
            &&& t.slots == s.slots
            &&& !t.has_session(wid as int)
            &&& if s.has_session(wid as int) && s.sessions[wid as int].fd >= 0 {
                act == Act::Discard {
                    fd: s.sessions[wid as int].fd,
                    path: body_names::wip_path(s.root, wid),
                }
            } else {
                act is Done
            }
            &&& !s.has_session(wid as int) ==> t.sessions == s.sessions
        }),
{
    let f = loam_body_wire::wabort_req_frame(wid);
    loam_body_wire::lemma_wid_round_trip(wid, Seq::empty());
    lemma_plain(f);
    assert(loam_body_wire::wabort_resp_frame() =~= seq![0x39u8]);
}

/// A blob that was published is found again: its size is told, and a request for it reads
/// as many bytes as were stored, which are then served.
pub proof fn lemma_stored_is_served(s: Store, digest: Seq<u8>, body: Seq<u8>, keyed: bool, i: int)
    requires
        s.wf(),
        has_directory(s),
        digest.len() == 32,
        body.len() <= 61440,
        0 <= i < s.slots.len(),
        s.slots[i] is None,
    ensures
        ({
            let t = s.published(digest, body.len() as u32, keyed, PublishOutcome::Published);
            let act = t.take(loam_body_wire::get_req_frame(digest)).1;
            &&& t.take(loam_body_wire::head_req_frame(digest)).0.owed == loam_body_wire::head_resp_frame(
                body.len() as u64,
            )
            &&& act matches Act::Read { digest: of, path, size }
            &&& of == digest && names(path, s.root, digest) && size == Some(body.len() as u32)
            &&& t.got(digest, size, Some(body)).owed == loam_body_wire::get_resp_frame(body)
        }),
{
    body_slots::lemma_room_is_used(s.slots, digest, body.len() as u32, keyed, i);
    let h = loam_body_wire::head_req_frame(digest);
    loam_body_wire::lemma_head_req_round_trip(digest, Seq::empty());
    lemma_plain(h);
    let g = loam_body_wire::get_req_frame(digest);
    loam_body_wire::lemma_get_req_round_trip(digest, Seq::empty());
    lemma_plain(g);
}

} // verus!
