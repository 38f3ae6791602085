//! What each request of a client comes to: what is asked on its behalf, and what it is
//! answered for every answer that may come.
use crate::admin_router_laws;
use crate::admin_router_state;
use crate::admin_router_state::{Act, PendingDownstream, PutFile, Router, Stream, StreamPut};
use crate::bytes;
use crate::loam_admin_wire;
use crate::loam_body_wire;
use crate::loam_object_wire;
use crate::loam_wire;
use vstd::prelude::*;

verus! {

/// The answer begins with this opcode, correlation id and status.
pub open spec fn says(frame: Seq<u8>, op: u8, cid: u32, status: u8) -> bool {
    &&& frame.len() >= 6
    &&& frame[0] == op
    &&& frame.subrange(1, 5) == bytes::le32(cid)
    &&& frame[5] == status
}

/// The client gets an answer that says just this.
pub open spec fn only_says(act: Act, op: u8, cid: u32, status: u8) -> bool {
    act matches Act::Reply { frame } && frame.len() == 6 && says(frame, op, cid, status)
}

/// The client gets an answer that says this, and these bytes behind it.
pub open spec fn brings(act: Act, op: u8, cid: u32, status: u8, rest: Seq<u8>) -> bool {
    act matches Act::Reply { frame } && says(frame, op, cid, status) && frame.skip(6) == rest
}

/// These bytes are sent on, on behalf of the request with this correlation id.
pub open spec fn passed_on(act: Act, stream: Stream, frame: Seq<u8>, cid: u32) -> bool {
    &&& act matches Act::Forward { stream: at, frame: sent, entry }
    &&& at == stream
    &&& sent == frame
    &&& entry.correlation_id == cid
}

/// What waits for the answer to what is sent on.
pub open spec fn waiting(act: Act) -> PendingDownstream {
    act->entry
}

/// It is this request's turn on a stream.
pub open spec fn is_turn(t: Router, stream: Stream, act: Act) -> bool {
    t.queue(stream).len() > 0 && t.queue(stream)[0] == waiting(act)
}

proof fn lemma_plain(frame: Seq<u8>)
    ensures
        frame + Seq::<u8>::empty() == frame,
{
    assert(frame + Seq::<u8>::empty() =~= frame);
}

proof fn lemma_ack(op: u8, cid: u32, status: u8, rest: Seq<u8>)
    ensures
        ({
            let f = loam_admin_wire::ack_frame(op, cid, status);
            &&& f.len() == 6
            &&& says(f, op, cid, status)
            &&& says(f + rest, op, cid, status)
            &&& (f + rest).skip(6) == rest
        }),
{
    let f = loam_admin_wire::ack_frame(op, cid, status);
    assert(f.subrange(1, 5) =~= bytes::le32(cid));
    assert((f + rest).subrange(1, 5) =~= bytes::le32(cid));
    assert((f + rest).skip(6) =~= rest);
}

proof fn lemma_body_ack(op: u8, cid: u32, body: Seq<u8>)
    ensures
        ({
            let f = loam_admin_wire::body_ack_frame(op, cid, 1, Some(body));
            &&& says(f, op, cid, 1)
            &&& f.skip(6) == bytes::le32(body.len() as u32) + body
        }),
{
    let f = loam_admin_wire::body_ack_frame(op, cid, 1, Some(body));
    let rest = bytes::le32(body.len() as u32) + body;
    assert(f =~= loam_admin_wire::ack_frame(op, cid, 1) + rest);
    lemma_ack(op, cid, 1, rest);
}

proof fn lemma_other_acks(cid: u32, status: u8, size: u64, flag: bool, n: u8)
    ensures
        ({
            let stat = loam_admin_wire::stat_file_ack_frame(cid, status, size);
            let gone = loam_admin_wire::admin_delete_body_ack_frame(cid, status, flag);
            let open = loam_admin_wire::put_file_open_ack_frame(cid, status, n);
            let chunk = loam_admin_wire::put_file_chunk_ack_frame(cid, status);
            &&& says(stat, 0x4B, cid, status) && stat.skip(6) == bytes::le64(size)
            &&& says(gone, 0x4D, cid, status) && gone.skip(6) == seq![
                if flag {
                    1u8
                } else {
                    0u8
                },
            ]
            &&& says(open, 0x47, cid, status) && open.skip(6) == seq![n]
            &&& says(chunk, 0x48, cid, status) && chunk.len() == 6
        }),
{
    let stat = loam_admin_wire::stat_file_ack_frame(cid, status, size);
    let gone = loam_admin_wire::admin_delete_body_ack_frame(cid, status, flag);
    let open = loam_admin_wire::put_file_open_ack_frame(cid, status, n);
    let chunk = loam_admin_wire::put_file_chunk_ack_frame(cid, status);
    assert(stat.subrange(1, 5) =~= bytes::le32(cid));
    assert(gone.subrange(1, 5) =~= bytes::le32(cid));
    assert(open.subrange(1, 5) =~= bytes::le32(cid));
    assert(chunk.subrange(1, 5) =~= bytes::le32(cid));
    assert(stat.skip(6) =~= bytes::le64(size));
    assert(gone.skip(6) =~= seq![
        if flag {
            1u8
        } else {
            0u8
        },
    ]);
    assert(open.skip(6) =~= seq![n]);
}

/// A request to bind goes to the namespace with the root, the path, the object id, the kind
/// and the revision that it names. It succeeds exactly if the namespace acknowledges it.
#[verifier::rlimit(60)]
#[verifier::spinoff_prover]
pub proof fn lemma_bind_is_passed_on(
    s: Router,
    t: Router,
    cid: u32,
    root: Seq<u8>,
    path: Seq<u8>,
    id: Seq<u8>,
    kind: u8,
    revision: u64,
    resp: Seq<u8>,
)
    requires
        s.ns.len() < 63,
        root.len() <= 64,
        path.len() <= 1024,
        id.len() <= 96,
    ensures
        ({
            let (u, a) = s.take(loam_admin_wire::admin_bind_frame(cid, root, path, id, kind, revision));
            &&& u == s
            &&& passed_on(a, Stream::Namespace, loam_wire::bind_frame(root, path, id, kind, revision), cid)
            &&& is_turn(t, Stream::Namespace, a) ==> only_says(
                t.ns_answered(resp).1,
                0x40,
                cid,
                if resp.len() > 0 && resp[0] == 1 {
                    1
                } else {
                    0xFF
                },
            )
        }),
{
    let f = loam_admin_wire::admin_bind_frame(cid, root, path, id, kind, revision);
    loam_admin_wire::lemma_admin_bind_round_trip(cid, root, path, id, kind, revision, Seq::empty());
    lemma_plain(f);
    lemma_ack(0x40, cid, 1, Seq::empty());
    lemma_ack(0x40, cid, 0xFF, Seq::empty());
}

/// A body goes to the body store as it is. It succeeds with the digest that the body store
/// answers, and fails on any other answer.
#[verifier::rlimit(60)]
#[verifier::spinoff_prover]
pub proof fn lemma_body_is_passed_on(s: Router, t: Router, cid: u32, body: Seq<u8>, digest: Seq<u8>, other: Seq<u8>)
    requires
        s.body_wired,
        s.body.len() < 63,
        body.len() <= 61440,
        digest.len() == 32,
        other.len() == 0 || other[0] != 0x30,
    ensures
        ({
            let (u, a) = s.take(loam_admin_wire::admin_put_body_frame(cid, body));
            &&& u == s
            &&& passed_on(a, Stream::Body, loam_body_wire::put_req_frame(body), cid)
            &&& is_turn(t, Stream::Body, a) ==> {
                &&& brings(t.body_answered(loam_body_wire::put_resp_frame(digest)).1, 0x41, cid, 1, digest)
                &&& only_says(t.body_answered(other).1, 0x41, cid, 0xFF)
            }
        }),
{
    let f = loam_admin_wire::admin_put_body_frame(cid, body);
    loam_admin_wire::lemma_admin_put_body_round_trip(cid, body, Seq::empty());
    lemma_plain(f);
    lemma_ack(0x41, cid, 1, digest);
    lemma_ack(0x41, cid, 0xFF, Seq::empty());
    loam_body_wire::lemma_put_resp_round_trip(digest, Seq::empty());
    lemma_plain(loam_body_wire::put_resp_frame(digest));
}

/// A body for a key goes to the body store with its key. It succeeds exactly if the body
/// store acknowledges it.
#[verifier::rlimit(60)]
#[verifier::spinoff_prover]
pub proof fn lemma_keyed_body_is_passed_on(
    s: Router,
    t: Router,
    cid: u32,
    key: Seq<u8>,
    body: Seq<u8>,
    resp: Seq<u8>,
)
    requires
        s.body_wired,
        s.body.len() < 63,
        key.len() == 32,
        body.len() <= 61440,
    ensures
        ({
            let (u, a) = s.take(loam_admin_wire::admin_put_body_keyed_frame(cid, key, body));
            &&& u == s
            &&& passed_on(a, Stream::Body, loam_body_wire::put_keyed_req_frame(key, body), cid)
            &&& is_turn(t, Stream::Body, a) ==> only_says(
                t.body_answered(resp).1,
                0x4C,
                cid,
                if resp.len() > 0 && resp[0] == 0x35 {
                    1
                } else {
                    0xFF
                },
            )
        }),
{
    let f = loam_admin_wire::admin_put_body_keyed_frame(cid, key, body);
    loam_admin_wire::lemma_admin_put_body_keyed_round_trip(cid, key, body, Seq::empty());
    lemma_plain(f);
    lemma_ack(0x4C, cid, 1, Seq::empty());
    lemma_ack(0x4C, cid, 0xFF, Seq::empty());
}

/// A request to remove a body goes to the body store with its key. The client learns
/// whether there was such a body.
#[verifier::rlimit(60)]
#[verifier::spinoff_prover]
pub proof fn lemma_delete_body_is_passed_on(
    s: Router,
    t: Router,
    cid: u32,
    key: Seq<u8>,
    existed: bool,
    other: Seq<u8>,
)
    requires
        s.body_wired,
        s.body.len() < 63,
        key.len() == 32,
        other.len() == 0 || other[0] != 0x33,
    ensures
        ({
            let (u, a) = s.take(loam_admin_wire::admin_delete_body_frame(cid, key));
            &&& u == s
            &&& passed_on(a, Stream::Body, loam_body_wire::delete_req_frame(key), cid)
            &&& is_turn(t, Stream::Body, a) ==> {
                &&& brings(
                    t.body_answered(loam_body_wire::delete_resp_frame(existed)).1,
                    0x4D,
                    cid,
                    1,
                    seq![
                        if existed {
                            1u8
                        } else {
                            0u8
                        },
                    ],
                )
                &&& brings(t.body_answered(other).1, 0x4D, cid, 0xFF, seq![0u8])
            }
        }),
{
    let f = loam_admin_wire::admin_delete_body_frame(cid, key);
    loam_admin_wire::lemma_admin_delete_body_round_trip(cid, key, Seq::empty());
    lemma_plain(f);
    lemma_other_acks(cid, 1, 0, existed, 0);
    lemma_other_acks(cid, 0xFF, 0, false, 0);
    loam_body_wire::lemma_delete_resp_round_trip(existed, Seq::empty());
    lemma_plain(loam_body_wire::delete_resp_frame(existed));
}

/// What the client is answered for what the body store says of a body that was asked for:
/// the bytes, or that there is no such body, or that it cannot be had.
pub open spec fn hands_out(t: Router, op: u8, cid: u32, body: Seq<u8>, errno: u8) -> bool {
    &&& brings(
        t.body_answered(loam_body_wire::get_resp_frame(body)).1,
        op,
        cid,
        1,
        bytes::le32(body.len() as u32) + body,
    )
    &&& only_says(
        t.body_answered(seq![0xFFu8, errno]).1,
        op,
        cid,
        if errno == 1 {
            2
        } else {
            0xFF
        },
    )
}

proof fn lemma_hands_out(t: Router, op: u8, cid: u32, body: Seq<u8>, errno: u8)
    requires
        op == 0x42 || op == 0x44,
        body.len() <= 61440,
        t.body.len() > 0,
        t.body[0].admin_op == op && t.body[0].correlation_id == cid,
    ensures
        hands_out(t, op, cid, body, errno),
{
    let resp = loam_body_wire::get_resp_frame(body);
    loam_body_wire::lemma_get_resp_round_trip(body, Seq::empty());
    lemma_plain(resp);
    lemma_body_ack(op, cid, body);
    lemma_ack(op, cid, 2, Seq::empty());
    lemma_ack(op, cid, 0xFF, Seq::empty());
}

/// A request for a body goes to the body store with its digest, and the bytes that come are
/// handed out whole.
#[verifier::rlimit(60)]
#[verifier::spinoff_prover]
pub proof fn lemma_get_body_is_passed_on(
    s: Router,
    t: Router,
    cid: u32,
    digest: Seq<u8>,
    body: Seq<u8>,
    errno: u8,
)
    requires
        s.body_wired,
        s.body.len() < 63,
        digest.len() == 32,
        body.len() <= 61440,
    ensures
        ({
            let (u, a) = s.take(loam_admin_wire::admin_get_body_frame(cid, digest));
            &&& u == s
            &&& passed_on(a, Stream::Body, loam_body_wire::get_req_frame(digest), cid)
            &&& is_turn(t, Stream::Body, a) ==> hands_out(t, 0x42, cid, body, errno)
        }),
{
    let f = loam_admin_wire::admin_get_body_frame(cid, digest);
    loam_admin_wire::lemma_admin_get_body_round_trip(cid, digest, Seq::empty());
    lemma_plain(f);
    let a = s.take(f).1;
    if is_turn(t, Stream::Body, a) {
        lemma_hands_out(t, 0x42, cid, body, errno);
    }
}

/// A request for a file has its path looked up, and then the body is asked for whose digest
/// the object's id stands for. Where nothing is bound there is no such file; where
/// something else is bound it cannot be had.
#[verifier::rlimit(60)]
#[verifier::spinoff_prover]
pub proof fn lemma_get_file_is_passed_on(
    s: Router,
    t: Router,
    v: Router,
    cid: u32,
    root: Seq<u8>,
    path: Seq<u8>,
    digest: Seq<u8>,
    revision: u64,
    kind: u8,
    body: Seq<u8>,
    errno: u8,
)
    requires
        s.body_wired,
        s.ns.len() < 63,
        t.body.len() < 63,
        root.len() <= 64,
        path.len() <= 1024,
        digest.len() == 32,
        body.len() <= 61440,
    ensures
        ({
            let (u, a) = s.take(loam_admin_wire::path_req_frame(0x44, cid, root, path));
            let id = admin_router_state::object_id(digest);
            let b = t.ns_answered(loam_wire::lookup_found_frame(id, revision, kind)).1;
            &&& u == s
            &&& passed_on(a, Stream::Namespace, loam_wire::lookup_req_frame(root, path), cid)
            &&& is_turn(t, Stream::Namespace, a) ==> {
                &&& passed_on(b, Stream::Body, loam_body_wire::get_req_frame(digest), cid)
                &&& is_turn(v, Stream::Body, b) ==> hands_out(v, 0x44, cid, body, errno)
                &&& only_says(t.ns_answered(seq![4u8, 0u8]).1, 0x44, cid, 2)
            }
        }),
{
    let f = loam_admin_wire::path_req_frame(0x44, cid, root, path);
    loam_admin_wire::lemma_path_req_round_trip(0x44, cid, root, path, Seq::empty());
    lemma_plain(f);
    let a = s.take(f).1;
    let id = admin_router_state::object_id(digest);
    let found = loam_wire::lookup_found_frame(id, revision, kind);
    loam_wire::lemma_lookup_resp_round_trip(id, revision, kind, Seq::empty());
    lemma_plain(found);
    admin_router_laws::lemma_id_leads_back(digest);
    lemma_ack(0x44, cid, 2, Seq::empty());
    let b = t.ns_answered(found).1;
    if is_turn(t, Stream::Namespace, a) && is_turn(v, Stream::Body, b) {
        lemma_hands_out(v, 0x44, cid, body, errno);
    }
}

/// A request to remove a file unbinds its path, and leaves its body alone. The client
/// learns whether the path was bound.
#[verifier::rlimit(60)]
#[verifier::spinoff_prover]
pub proof fn lemma_delete_file_is_passed_on(
    s: Router,
    t: Router,
    cid: u32,
    root: Seq<u8>,
    path: Seq<u8>,
    resp: Seq<u8>,
)
    requires
        s.ns.len() < 63,
        root.len() <= 64,
        path.len() <= 1024,
    ensures
        ({
            let (u, a) = s.take(loam_admin_wire::path_req_frame(0x45, cid, root, path));
            &&& u == s
            &&& passed_on(a, Stream::Namespace, loam_wire::unbind_frame(root, path), cid)
            &&& is_turn(t, Stream::Namespace, a) ==> only_says(
                t.ns_answered(resp).1,
                0x45,
                cid,
                if resp.len() > 0 && resp[0] == 3 {
                    1
                } else {
                    2
                },
            )
        }),
{
    let f = loam_admin_wire::path_req_frame(0x45, cid, root, path);
    loam_admin_wire::lemma_path_req_round_trip(0x45, cid, root, path, Seq::empty());
    lemma_plain(f);
    lemma_ack(0x45, cid, 1, Seq::empty());
    lemma_ack(0x45, cid, 2, Seq::empty());
}

/// A request for a page of files goes to the namespace with the root, the cursor and the
/// number that it names. The page comes back as the namespace gave it: where to go on, how
/// many entries there are, and the entries.
#[verifier::rlimit(60)]
#[verifier::spinoff_prover]
pub proof fn lemma_list_files_is_passed_on(
    s: Router,
    t: Router,
    cid: u32,
    root: Seq<u8>,
    cursor: u32,
    max: u8,
    next: u32,
    count: u8,
    entries: Seq<u8>,
    other: Seq<u8>,
)
    requires
        s.ns.len() < 63,
        root.len() <= 64,
        entries.len() <= 4090,
        other.len() < 6 || other[0] != 5,
    ensures
        ({
            let (u, a) = s.take(loam_admin_wire::admin_list_files_frame(cid, root, cursor, max));
            let page = seq![5u8] + bytes::le32(next) + seq![count] + entries;
            &&& u == s
            &&& passed_on(a, Stream::Namespace, loam_wire::list_req_frame(root, cursor, max), cid)
            &&& is_turn(t, Stream::Namespace, a) ==> {
                &&& brings(t.ns_answered(page).1, 0x46, cid, 1, bytes::le32(next) + seq![count] + entries)
                &&& only_says(t.ns_answered(other).1, 0x46, cid, 0xFF)
            }
        }),
{
    let f = loam_admin_wire::admin_list_files_frame(cid, root, cursor, max);
    loam_admin_wire::lemma_admin_list_files_round_trip(cid, root, cursor, max, Seq::empty());
    lemma_plain(f);
    let page = seq![5u8] + bytes::le32(next) + seq![count] + entries;
    let rest = bytes::le32(next) + seq![count] + entries;
    lemma_ack(0x46, cid, 1, rest);
    lemma_ack(0x46, cid, 0xFF, Seq::empty());
    assert(page.subrange(1, 5) =~= bytes::le32(next));
    bytes::lemma_u32_at(page, 1, next);
    assert(page[5] == count);
    assert(page.skip(6) =~= entries);
    let sent = loam_admin_wire::list_files_ack_frame(cid, 1, next, count, entries);
    assert(sent =~= loam_admin_wire::ack_frame(0x46, cid, 1) + rest);
}

/// A request for the size of a file has its path looked up, and then the body store is
/// asked about the body whose digest the object's id stands for. The client gets the size
/// that the body store says.
#[verifier::rlimit(60)]
#[verifier::spinoff_prover]
pub proof fn lemma_stat_file_is_passed_on(
    s: Router,
    t: Router,
    v: Router,
    cid: u32,
    root: Seq<u8>,
    path: Seq<u8>,
    digest: Seq<u8>,
    revision: u64,
    kind: u8,
    size: u64,
    errno: u8,
)
    requires
        s.body_wired,
        s.ns.len() < 63,
        t.body.len() < 63,
        root.len() <= 64,
        path.len() <= 1024,
        digest.len() == 32,
    ensures
        ({
            let (u, a) = s.take(loam_admin_wire::path_req_frame(0x4B, cid, root, path));
            let id = admin_router_state::object_id(digest);
            let b = t.ns_answered(loam_wire::lookup_found_frame(id, revision, kind)).1;
            &&& u == s
            &&& passed_on(a, Stream::Namespace, loam_wire::lookup_req_frame(root, path), cid)
            &&& is_turn(t, Stream::Namespace, a) ==> {
                &&& passed_on(b, Stream::Body, loam_body_wire::head_req_frame(digest), cid)
                &&& brings(t.ns_answered(seq![4u8, 0u8]).1, 0x4B, cid, 2, bytes::le64(0))
                &&& is_turn(v, Stream::Body, b) ==> {
                    &&& brings(
                        v.body_answered(loam_body_wire::head_resp_frame(size)).1,
                        0x4B,
                        cid,
                        1,
                        bytes::le64(size),
                    )
                    &&& brings(
                        v.body_answered(seq![0xFFu8, errno]).1,
                        0x4B,
                        cid,
                        if errno == 1 {
                            2
                        } else {
                            0xFF
                        },
                        bytes::le64(0),
                    )
                }
            }
        }),
{
    let f = loam_admin_wire::path_req_frame(0x4B, cid, root, path);
    loam_admin_wire::lemma_path_req_round_trip(0x4B, cid, root, path, Seq::empty());
    lemma_plain(f);
    let id = admin_router_state::object_id(digest);
    let found = loam_wire::lookup_found_frame(id, revision, kind);
    loam_wire::lemma_lookup_resp_round_trip(id, revision, kind, Seq::empty());
    lemma_plain(found);
    admin_router_laws::lemma_id_leads_back(digest);
    loam_body_wire::lemma_head_resp_round_trip(size, Seq::empty());
    lemma_plain(loam_body_wire::head_resp_frame(size));
    lemma_other_acks(cid, 1, size, false, 0);
    lemma_other_acks(cid, 2, 0, false, 0);
    lemma_other_acks(cid, 0xFF, 0, false, 0);
}

/// A request for a part of a file has its path looked up, and then the body store is asked
/// for just that part of the body whose digest the object's id stands for. The bytes that
/// come are handed out whole.
#[verifier::rlimit(60)]
#[verifier::spinoff_prover]
pub proof fn lemma_file_range_is_passed_on(
    s: Router,
    t: Router,
    v: Router,
    cid: u32,
    off: u64,
    len: u32,
    root: Seq<u8>,
    path: Seq<u8>,
    digest: Seq<u8>,
    revision: u64,
    kind: u8,
    part: Seq<u8>,
    errno: u8,
)
    requires
        s.body_wired,
        s.ns.len() < 63,
        t.body.len() < 63,
        root.len() <= 64,
        path.len() <= 1024,
        digest.len() == 32,
        part.len() <= 61440,
    ensures
        ({
            let (u, a) = s.take(loam_admin_wire::read_file_range_frame(cid, off, len, root, path));
            let id = admin_router_state::object_id(digest);
            let b = t.ns_answered(loam_wire::lookup_found_frame(id, revision, kind)).1;
            &&& u == s
            &&& passed_on(a, Stream::Namespace, loam_wire::lookup_req_frame(root, path), cid)
            &&& is_turn(t, Stream::Namespace, a) ==> {
                &&& passed_on(b, Stream::Body, loam_body_wire::range_req_frame(digest, off, len), cid)
                &&& only_says(t.ns_answered(seq![4u8, 0u8]).1, 0x4A, cid, 2)
                &&& is_turn(v, Stream::Body, b) ==> {
                    &&& brings(
                        v.body_answered(loam_body_wire::range_resp_frame(part)).1,
                        0x4A,
                        cid,
                        1,
                        bytes::le32(part.len() as u32) + part,
                    )
                    &&& only_says(
                        v.body_answered(seq![0xFFu8, errno]).1,
                        0x4A,
                        cid,
                        if errno == 1 {
                            2
                        } else {
                            0xFF
                        },
                    )
                }
            }
        }),
{
    let f = loam_admin_wire::read_file_range_frame(cid, off, len, root, path);
    loam_admin_wire::lemma_read_file_range_round_trip(cid, off, len, root, path, Seq::empty());
    lemma_plain(f);
    let id = admin_router_state::object_id(digest);
    let found = loam_wire::lookup_found_frame(id, revision, kind);
    loam_wire::lemma_lookup_resp_round_trip(id, revision, kind, Seq::empty());
    lemma_plain(found);
    admin_router_laws::lemma_id_leads_back(digest);
    loam_body_wire::lemma_range_resp_round_trip(part, Seq::empty());
    lemma_plain(loam_body_wire::range_resp_frame(part));
    lemma_body_ack(0x4A, cid, part);
    lemma_ack(0x4A, cid, 2, Seq::empty());
    lemma_ack(0x4A, cid, 0xFF, Seq::empty());
}

/// A file that is streamed has a write opened for the digest and the length that it
/// announces, and its place holds all that it was opened with.
#[verifier::rlimit(60)]
#[verifier::spinoff_prover]
pub proof fn lemma_stream_is_opened(
    s: Router,
    cid: u32,
    root: Seq<u8>,
    path: Seq<u8>,
    kind: u8,
    revision: u64,
    digest: Seq<u8>,
    total_len: u64,
    idx: int,
)
    requires
        s.wf(),
        s.body_wired,
        s.body.len() < 63,
        root.len() <= 64,
        path.len() <= 1024,
        digest.len() == 32,
        0 <= idx < 4,
        !s.spf[idx].in_use,
        forall|i: int| 0 <= i < idx ==> (#[trigger] s.spf[i]).in_use,
    ensures
        ({
            let (u, a) = s.take(
                loam_admin_wire::put_file_open_frame(cid, root, path, kind, revision, digest, total_len),
            );
            &&& passed_on(a, Stream::Body, loam_body_wire::wopen_req_frame(digest, total_len), cid)
            &&& waiting(a).admin_op == 0x47 && waiting(a).putfile_idx == idx
            &&& u.spf[idx] == StreamPut {
                in_use: true,
                wid: None,
                kind,
                revision,
                total_len,
                digest,
                ns_root: root,
                path,
            }
        }),
{
    let f = loam_admin_wire::put_file_open_frame(cid, root, path, kind, revision, digest, total_len);
    loam_admin_wire::lemma_put_file_open_round_trip(
        cid,
        root,
        path,
        kind,
        revision,
        digest,
        total_len,
        Seq::empty(),
    );
    lemma_plain(f);
    lemma_free_stream_is(s.spf, 0, idx);
}

/// Once the body store has opened a write for a stream the client gets the number of its
/// place, which holds what it held, and the number of the write. Where the body store does
/// not, the client is refused and the place is free.
#[verifier::rlimit(60)]
#[verifier::spinoff_prover]
pub proof fn lemma_opened_stream_is_answered(t: Router, cid: u32, idx: int, wid: u8, other: Seq<u8>)
    requires
        t.wf(),
        0 <= idx < 4,
        t.body.len() > 0,
        t.body[0].admin_op == 0x47 && t.body[0].correlation_id == cid && t.body[0].putfile_idx == idx,
        other.len() == 0 || other[0] != 0x36,
    ensures
        ({
            let (w, b) = t.body_answered(loam_body_wire::wopen_resp_frame(wid));
            &&& brings(b, 0x47, cid, 1, seq![idx as u8])
            &&& w.spf[idx] == StreamPut { wid: Some(wid), ..t.spf[idx] }
        }),
        brings(t.body_answered(other).1, 0x47, cid, 0xFF, seq![0u8]),
        !t.body_answered(other).0.spf[idx].in_use,
{
    loam_body_wire::lemma_wopen_resp_round_trip(wid, Seq::empty());
    lemma_plain(loam_body_wire::wopen_resp_frame(wid));
    lemma_other_acks(cid, 1, 0, false, idx as u8);
    lemma_other_acks(cid, 0xFF, 0, false, 0);
}

/// The chunks of a stream go to its write, as they are, and so does its end. Without such a
/// stream they are refused.
#[verifier::rlimit(60)]
#[verifier::spinoff_prover]
pub proof fn lemma_stream_is_filled(v: Router, cid: u32, idx: u8, wid: u8, chunk: Seq<u8>)
    requires
        v.wf(),
        v.body.len() < 63,
        1 <= chunk.len() <= 61440,
    ensures
        ({
            let (u, c) = v.take(loam_admin_wire::put_file_chunk_frame(cid, idx, chunk));
            let (w, d) = v.take(loam_admin_wire::put_file_commit_frame(cid, idx));
            &&& idx < 4 && v.spf[idx as int].in_use && v.spf[idx as int].wid == Some(wid) ==> {
                &&& passed_on(c, Stream::Body, loam_body_wire::wappend_req_frame(wid, chunk), cid)
                &&& waiting(c).admin_op == 0x48 && waiting(c).putfile_idx == idx
                &&& passed_on(d, Stream::Body, loam_body_wire::wcommit_req_frame(wid), cid)
                &&& waiting(d).admin_op == 0x49 && waiting(d).putfile_idx == idx
            }
            &&& idx >= 4 || !v.spf[idx as int].in_use || v.spf[idx as int].wid is None ==> {
                &&& only_says(c, 0x48, cid, 0xFF)
                &&& only_says(d, 0x43, cid, 0xFF)
            }
            &&& u.spf == v.spf && w.spf == v.spf
        }),
{
    let g = loam_admin_wire::put_file_chunk_frame(cid, idx, chunk);
    loam_admin_wire::lemma_put_file_chunk_round_trip(cid, idx, chunk, Seq::empty());
    lemma_plain(g);
    let h = loam_admin_wire::put_file_commit_frame(cid, idx);
    loam_admin_wire::lemma_put_file_commit_round_trip(cid, idx, Seq::empty());
    lemma_plain(h);
    lemma_other_acks(cid, 0xFF, 0, false, 0);
    lemma_ack(0x43, cid, 0xFF, Seq::empty());
}

proof fn lemma_free_stream_is(s: Seq<admin_router_state::StreamPut>, from: int, idx: int)
    requires
        0 <= from <= idx < s.len(),
        !s[idx].in_use,
        forall|i: int| 0 <= i < idx ==> (#[trigger] s[i]).in_use,
    ensures
        admin_router_state::free_stream(s, from) == Some(idx),
    decreases idx - from,
{
    if from < idx {
        assert(s[from].in_use);
        lemma_free_stream_is(s, from + 1, idx);
    }
}

/// A file that was streamed, and was committed under the digest that was announced, is
/// described under the root and the path that it was opened with, with its length and
/// revision; and its place among the files that are being stored holds what its binding
/// needs. From there on it goes like any other file.
#[verifier::rlimit(60)]
#[verifier::spinoff_prover]
pub proof fn lemma_committed_stream_is_described(
    x: Router,
    cid: u32,
    root: Seq<u8>,
    path: Seq<u8>,
    kind: u8,
    revision: u64,
    digest: Seq<u8>,
    total_len: u64,
    idx: int,
    place: int,
    wid: u8,
)
    requires
        x.wf(),
        x.obj.len() < 63,
        digest.len() == 32,
        0 <= idx < 4,
        x.spf[idx] == (StreamPut {
            in_use: true,
            wid: Some(wid),
            kind,
            revision,
            total_len,
            digest,
            ns_root: root,
            path,
        }),
        x.body.len() > 0,
        x.body[0].admin_op == 0x49 && x.body[0].correlation_id == cid && x.body[0].putfile_idx == idx,
        0 <= place < 16,
        !x.putfiles[place].in_use,
        forall|i: int| 0 <= i < place ==> (#[trigger] x.putfiles[i]).in_use,
    ensures
        ({
            let id = admin_router_state::object_id(digest);
            let (u, a) = x.body_answered(loam_body_wire::wcommit_resp_frame(digest));
            let len = if total_len <= 0xFFFF_FFFF {
                total_len
            } else {
                0xFFFF_FFFF
            };
            &&& passed_on(
                a,
                Stream::Object,
                loam_object_wire::put_frame(4, id, root, path, id, len, revision, 0, 1, None),
                cid,
            )
            &&& waiting(a).admin_op == 0x43 && waiting(a).putfile_idx == place
            &&& u.putfiles[place] == PutFile {
                in_use: true,
                stage: 1,
                correlation_id: cid,
                kind,
                digest,
                body_len: len as u32,
                revision,
                ns_root: root,
                path,
            }
            &&& !u.spf[idx].in_use
        }),
{
    loam_body_wire::lemma_wcommit_resp_round_trip(digest, Seq::empty());
    lemma_plain(loam_body_wire::wcommit_resp_frame(digest));
    lemma_free_putfile_is(x.putfiles, 0, place);
}

/// Where the body store commits a stream to another digest than was announced, or does not
/// commit it, nothing is described or bound: the client is refused, and the place is free.
#[verifier::rlimit(60)]
#[verifier::spinoff_prover]
pub proof fn lemma_uncommitted_stream_is_refused(x: Router, cid: u32, idx: int, resp: Seq<u8>)
    requires
        x.wf(),
        0 <= idx < 4,
        x.body.len() > 0,
        x.body[0].admin_op == 0x49 && x.body[0].correlation_id == cid && x.body[0].putfile_idx == idx,
        resp.len() < 33 || resp[0] != 0x38 || resp.subrange(1, 33) != x.spf[idx].digest,
    ensures
        only_says(x.body_answered(resp).1, 0x43, cid, 0xFF),
        !x.body_answered(resp).0.spf[idx].in_use,
        x.body_answered(resp).0.putfiles == x.putfiles,
{
    lemma_ack(0x43, cid, 0xFF, Seq::empty());
}

/// A file whose body, description or binding is refused is refused to the client, and its
/// place is free again.
#[verifier::rlimit(60)]
#[verifier::spinoff_prover]
pub proof fn lemma_refused_file_is_given_up(x: Router, cid: u32, idx: int, resp: Seq<u8>, ack: u8)
    requires
        x.wf(),
        0 <= idx < 16,
        resp.len() == 0 || resp[0] == 0xFF,
        ack != 4,
    ensures
        x.body.len() > 0 && x.body[0] == admin_router_state::pending(0x43, cid, idx as u16) ==> {
            &&& only_says(x.body_answered(resp).1, 0x43, cid, 0xFF)
            &&& !x.body_answered(resp).0.putfiles[idx].in_use
        },
        x.obj.len() > 0 && x.obj[0] == admin_router_state::pending(0x43, cid, idx as u16) ==> {
            &&& only_says(x.obj_answered(ack).1, 0x43, cid, 0xFF)
            &&& !x.obj_answered(ack).0.putfiles[idx].in_use
        },
        x.ns.len() > 0 && x.ns[0] == admin_router_state::pending(0x43, cid, idx as u16) ==> {
            &&& only_says(x.ns_answered(resp).1, 0x43, cid, 0xFF)
            &&& !x.ns_answered(resp).0.putfiles[idx].in_use
        },
{
    lemma_ack(0x43, cid, 0xFF, Seq::empty());
}

/// A chunk of a stream succeeds exactly if the body store takes it; one that it does not
/// take ends the stream.
#[verifier::rlimit(60)]
#[verifier::spinoff_prover]
pub proof fn lemma_chunk_is_answered(x: Router, cid: u32, idx: int, resp: Seq<u8>)
    requires
        x.wf(),
        0 <= idx < 4,
        x.body.len() > 0,
        x.body[0].admin_op == 0x48 && x.body[0].correlation_id == cid && x.body[0].putfile_idx == idx,
    ensures
        ({
            let (u, a) = x.body_answered(resp);
            if resp.len() > 0 && resp[0] == 0x37 {
                only_says(a, 0x48, cid, 1) && u.spf == x.spf
            } else {
                only_says(a, 0x48, cid, 0xFF) && !u.spf[idx].in_use
            }
        }),
{
    lemma_other_acks(cid, 1, 0, false, 0);
    lemma_other_acks(cid, 0xFF, 0, false, 0);
}

proof fn lemma_free_putfile_is(s: Seq<admin_router_state::PutFile>, from: int, idx: int)
    requires
        0 <= from <= idx < s.len(),
        !s[idx].in_use,
        forall|i: int| 0 <= i < idx ==> (#[trigger] s[i]).in_use,
    ensures
        admin_router_state::free_putfile(s, from) == Some(idx),
    decreases idx - from,
{
    if from < idx {
        assert(s[from].in_use);
        lemma_free_putfile_is(s, from + 1, idx);
    }
}

/// When a page of the inventory is due, and nothing is in the way, the collector asks for
/// it, from where it stopped.
#[verifier::rlimit(60)]
#[verifier::spinoff_prover]
pub proof fn lemma_collector_begins(s: Router)
    requires
        s.body_wired,
        s.body.len() < 63,
        s.gc.interval != 0,
        s.ticks.wrapping_add(1) % s.gc.interval == 0,
        !s.gc.inflight,
        s.gc.digests.len() == 0,
        forall|i: int| 0 <= i < s.putfiles.len() ==> !(#[trigger] s.putfiles[i]).in_use,
        forall|i: int| 0 <= i < s.spf.len() ==> !(#[trigger] s.spf[i]).in_use,
    ensures
        passed_on(s.step().1, Stream::Body, loam_body_wire::scan_req_frame(s.gc.cursor, 4), 0),
        waiting(s.step().1).admin_op == 0xF0,
{
}

/// A blob to which nothing leads is removed, where no file is being stored. One to which
/// something leads is kept, and the next of the page is asked about. Where the namespace
/// has not looked everywhere it is asked again, from where it stopped.
#[verifier::rlimit(60)]
#[verifier::spinoff_prover]
pub proof fn lemma_orphan_is_collected(s: Router, next: u32)
    requires
        s.wf(),
        s.body.len() < 63,
        s.ns.len() < 63,
        s.gc.digests.len() > 0,
        forall|i: int| 0 <= i < s.putfiles.len() ==> !(#[trigger] s.putfiles[i]).in_use,
        forall|i: int| 0 <= i < s.spf.len() ==> !(#[trigger] s.spf[i]).in_use,
        next != 0,
    ensures
        passed_on(
            s.gc_checked(loam_wire::referenced_resp_frame(false, 0)).1,
            Stream::Body,
            loam_body_wire::delete_req_frame(s.gc.digests[s.gc.pos]),
            0,
        ),
        passed_on(
            s.gc_checked(loam_wire::referenced_resp_frame(false, next)).1,
            Stream::Namespace,
            loam_wire::referenced_req_frame(next, admin_router_state::object_id(s.gc.digests[s.gc.pos])),
            0,
        ),
        s.gc.pos + 1 < s.gc.digests.len() ==> passed_on(
            s.gc_checked(loam_wire::referenced_resp_frame(true, 0)).1,
            Stream::Namespace,
            loam_wire::referenced_req_frame(0, admin_router_state::object_id(s.gc.digests[s.gc.pos + 1])),
            0,
        ),
        s.gc.pos + 1 == s.gc.digests.len() ==> s.gc_checked(loam_wire::referenced_resp_frame(true, 0)).1 is Done
            && s.gc_checked(loam_wire::referenced_resp_frame(true, 0)).0.gc.digests.len() == 0,
{
    loam_wire::lemma_referenced_resp_round_trip(false, 0, Seq::empty());
    loam_wire::lemma_referenced_resp_round_trip(false, next, Seq::empty());
    loam_wire::lemma_referenced_resp_round_trip(true, 0, Seq::empty());
    lemma_plain(loam_wire::referenced_resp_frame(false, 0));
    lemma_plain(loam_wire::referenced_resp_frame(false, next));
    lemma_plain(loam_wire::referenced_resp_frame(true, 0));
}

} // verus!
