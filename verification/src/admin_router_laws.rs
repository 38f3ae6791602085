//! What a router of administrative requests promises across requests.
use crate::admin_router_state;
use crate::admin_router_state::{Act, PendingDownstream, Router, Stream, GC_OP_CHECK, GC_OP_DELETE, GC_OP_SCAN};
use crate::body_names;
use crate::bytes;
use crate::loam_admin_wire;
use crate::loam_body_wire;
use crate::loam_wire;
use vstd::prelude::*;

verus! {

/// The id of an object leads back to the digest of its body.
pub proof fn lemma_id_leads_back(digest: Seq<u8>)
    requires
        digest.len() == 32,
    ensures
        admin_router_state::id_digest(admin_router_state::object_id(digest)) == Some(digest),
{
    let id = admin_router_state::object_id(digest);
    assert(id.take(7) =~= admin_router_state::id_prefix());
    assert(id.skip(7) =~= loam_body_wire::hex_of(digest));
    body_names::lemma_name_leads_back(digest);
}

/// The frame answers the request with this correlation id.
pub open spec fn answers(frame: Seq<u8>, cid: u32) -> bool {
    frame.len() >= 6 && frame.subrange(1, 5) == bytes::le32(cid)
}

proof fn lemma_ack_answers(op: u8, cid: u32, status: u8, rest: Seq<u8>)
    ensures
        answers(loam_admin_wire::ack_frame(op, cid, status), cid),
        answers(loam_admin_wire::ack_frame(op, cid, status) + rest, cid),
{
    let f = loam_admin_wire::ack_frame(op, cid, status);
    assert(f.subrange(1, 5) =~= bytes::le32(cid));
    assert((f + rest).subrange(1, 5) =~= bytes::le32(cid));
}

/// What is done concerns the request with this correlation id: it is answered, or a
/// request is forwarded on its behalf.
pub open spec fn concerns(act: Act, cid: u32) -> bool {
    match act {
        Act::Done => true,
        Act::Reply { frame } => answers(frame, cid),
        Act::Forward { stream, frame, entry } => entry.correlation_id == cid,
    }
}

proof fn lemma_frames_answer(cid: u32)
    ensures
        forall|op: u8, status: u8| answers(#[trigger] loam_admin_wire::ack_frame(op, cid, status), cid),
        forall|status: u8, size: u64| answers(#[trigger] loam_admin_wire::stat_file_ack_frame(cid, status, size), cid),
        forall|status: u8, existed: bool|
            answers(#[trigger] loam_admin_wire::admin_delete_body_ack_frame(cid, status, existed), cid),
        forall|status: u8, pfid: u8|
            answers(#[trigger] loam_admin_wire::put_file_open_ack_frame(cid, status, pfid), cid),
        forall|status: u8| answers(#[trigger] loam_admin_wire::put_file_chunk_ack_frame(cid, status), cid),
        forall|op: u8, status: u8, digest: Option<Seq<u8>>|
            answers(#[trigger] loam_admin_wire::digest_ack_frame(op, cid, status, digest), cid),
        forall|op: u8, status: u8, body: Option<Seq<u8>>|
            answers(#[trigger] loam_admin_wire::body_ack_frame(op, cid, status, body), cid),
        forall|status: u8, next: u32, count: u8, entries: Seq<u8>|
            answers(#[trigger] loam_admin_wire::list_files_ack_frame(cid, status, next, count, entries), cid),
{
    assert forall|op: u8, status: u8| answers(#[trigger] loam_admin_wire::ack_frame(op, cid, status), cid) by {
        lemma_ack_answers(op, cid, status, Seq::empty());
    }
    assert forall|status: u8, size: u64|
        answers(#[trigger] loam_admin_wire::stat_file_ack_frame(cid, status, size), cid) by {
        assert(loam_admin_wire::stat_file_ack_frame(cid, status, size).subrange(1, 5) =~= bytes::le32(cid));
    }
    assert forall|status: u8, existed: bool|
        answers(#[trigger] loam_admin_wire::admin_delete_body_ack_frame(cid, status, existed), cid) by {
        assert(loam_admin_wire::admin_delete_body_ack_frame(cid, status, existed).subrange(1, 5) =~= bytes::le32(
            cid,
        ));
    }
    assert forall|status: u8, pfid: u8|
        answers(#[trigger] loam_admin_wire::put_file_open_ack_frame(cid, status, pfid), cid) by {
        assert(loam_admin_wire::put_file_open_ack_frame(cid, status, pfid).subrange(1, 5) =~= bytes::le32(cid));
    }
    assert forall|status: u8| answers(#[trigger] loam_admin_wire::put_file_chunk_ack_frame(cid, status), cid) by {
        assert(loam_admin_wire::put_file_chunk_ack_frame(cid, status).subrange(1, 5) =~= bytes::le32(cid));
    }
    assert forall|op: u8, status: u8, digest: Option<Seq<u8>>|
        answers(#[trigger] loam_admin_wire::digest_ack_frame(op, cid, status, digest), cid) by {
        lemma_ack_answers(op, cid, status, digest.unwrap());
    }
    assert forall|op: u8, status: u8, body: Option<Seq<u8>>|
        answers(#[trigger] loam_admin_wire::body_ack_frame(op, cid, status, body), cid) by {
        lemma_ack_answers(op, cid, status, Seq::empty());
        if let Some(b) = body {
            let f = loam_admin_wire::ack_frame(op, cid, loam_admin_wire::STATUS_OK);
            lemma_ack_answers(op, cid, loam_admin_wire::STATUS_OK, bytes::le32(b.len() as u32) + b);
            assert(f + (bytes::le32(b.len() as u32) + b) =~= f + bytes::le32(b.len() as u32) + b);
        }
    }
    assert forall|status: u8, next: u32, count: u8, entries: Seq<u8>|
        answers(#[trigger] loam_admin_wire::list_files_ack_frame(cid, status, next, count, entries), cid) by {
        let f = loam_admin_wire::ack_frame(loam_admin_wire::OP_LIST_FILES, cid, loam_admin_wire::STATUS_OK);
        lemma_ack_answers(loam_admin_wire::OP_LIST_FILES, cid, status, Seq::empty());
        lemma_ack_answers(
            loam_admin_wire::OP_LIST_FILES,
            cid,
            loam_admin_wire::STATUS_OK,
            bytes::le32(next) + seq![count] + entries,
        );
        assert(f + (bytes::le32(next) + seq![count] + entries) =~= f + bytes::le32(next) + seq![count] + entries);
    }
}

/// What a request leads to, at once, concerns that request.
pub proof fn lemma_request_keeps_its_id(s: Router, request: Seq<u8>)
    requires
        s.wf(),
    ensures
        concerns(s.take(request).1, bytes::u32_at(request, 1)),
{
    lemma_frames_answer(bytes::u32_at(request, 1));
}

/// The request is one of a client, not of the collector.
pub open spec fn is_client(entry: PendingDownstream) -> bool {
    entry.admin_op != GC_OP_SCAN && entry.admin_op != GC_OP_CHECK && entry.admin_op != GC_OP_DELETE
}

/// What an answer leads to concerns the oldest request that waited for one there: it is
/// answered under its own correlation id.
pub proof fn lemma_answer_goes_to_the_oldest(s: Router, resp: Seq<u8>, ack: u8)
    ensures
        s.ns.len() > 0 && is_client(s.ns[0]) ==> concerns(s.ns_answered(resp).1, s.ns[0].correlation_id),
        s.body.len() > 0 && is_client(s.body[0]) ==> concerns(s.body_answered(resp).1, s.body[0].correlation_id),
        s.obj.len() > 0 ==> concerns(s.obj_answered(ack).1, s.obj[0].correlation_id),
{
    if s.ns.len() > 0 {
        lemma_frames_answer(s.ns[0].correlation_id);
    }
    if s.body.len() > 0 {
        lemma_frames_answer(s.body[0].correlation_id);
    }
    if s.obj.len() > 0 {
        lemma_frames_answer(s.obj[0].correlation_id);
    }
}

/// A request that was forwarded waits behind those that were forwarded before, and one
/// that the channel did not take does not wait: what waits for an answer is, in this
/// order, what was asked.
pub proof fn lemma_order_is_kept(s: Router, stream: Stream, other: Stream, entry: PendingDownstream, ok: bool)
    requires
        other != stream,
    ensures
        ({
            let t = s.forwarded_as(stream, entry, ok).0;
            &&& t.queue(stream) == if ok {
                s.queue(stream).push(entry)
            } else {
                s.queue(stream)
            }
            &&& t.queue(other) == s.queue(other)
        }),
{
}

/// Taking a request or beginning a step lets nobody's turn pass, and an answer takes just
/// the oldest request off.
pub proof fn lemma_only_answers_take_off(s: Router, request: Seq<u8>, resp: Seq<u8>, ack: u8)
    ensures
        ({
            let t = s.take(request).0;
            t.ns == s.ns && t.body == s.body && t.obj == s.obj
        }),
        ({
            let t = s.step().0;
            t.ns == s.ns && t.body == s.body && t.obj == s.obj
        }),
        s.ns.len() > 0 ==> ({
            let t = s.ns_answered(resp).0;
            t.ns == s.ns.remove(0) && t.body == s.body && t.obj == s.obj
        }),
        s.body.len() > 0 ==> ({
            let t = s.body_answered(resp).0;
            t.ns == s.ns && t.body == s.body.remove(0) && t.obj == s.obj
        }),
        s.obj.len() > 0 ==> ({
            let t = s.obj_answered(ack).0;
            t.ns == s.ns && t.body == s.body && t.obj == s.obj.remove(0)
        }),
{
}

/// What happens to a router.
pub ghost enum Happening {
    /// A request of a client comes.
    Request(Seq<u8>),
    /// A step begins.
    Step,
    /// A request was to be forwarded, and the channel took it or did not.
    Sent { stream: Stream, entry: PendingDownstream, ok: bool },
    /// An answer comes from the namespace, the body store or the object index.
    NsAnswer(Seq<u8>),
    BodyAnswer(Seq<u8>),
    ObjAnswer(u8),
}

/// What comes of it.
#[verifier::opaque]
pub open spec fn dealt(s: Router, e: Happening) -> (Router, Act) {
    match e {
        Happening::Request(request) => s.take(request),
        Happening::Step => s.step(),
        Happening::Sent { stream, entry, ok } => s.forwarded_as(stream, entry, ok),
        Happening::NsAnswer(resp) => s.ns_answered(resp),
        Happening::BodyAnswer(resp) => s.body_answered(resp),
        Happening::ObjAnswer(ack) => s.obj_answered(ack),
    }
}

/// The router after a run.
pub open spec fn after(s: Router, events: Seq<Happening>) -> Router
    decreases events.len(),
{
    if events.len() == 0 {
        s
    } else {
        dealt(after(s, events.drop_last()), events.last()).0
    }
}

/// The event is an answer on this stream.
pub open spec fn is_answer(e: Happening, stream: Stream) -> bool {
    match stream {
        Stream::Namespace => e is NsAnswer,
        Stream::Body => e is BodyAnswer,
        Stream::Object => e is ObjAnswer,
    }
}

/// The requests that were forwarded on a stream in a run, in order.
pub open spec fn asked(events: Seq<Happening>, stream: Stream) -> Seq<PendingDownstream>
    decreases events.len(),
{
    if events.len() == 0 {
        Seq::empty()
    } else {
        let rest = asked(events.drop_last(), stream);
        match events.last() {
            Happening::Sent { stream: at, entry, ok } => if at == stream && ok {
                rest.push(entry)
            } else {
                rest
            },
            _ => rest,
        }
    }
}

/// How many answers on a stream found a request that waited for one, in a run.
pub open spec fn matched(s: Router, events: Seq<Happening>, stream: Stream) -> nat
    decreases events.len(),
{
    if events.len() == 0 {
        0
    } else {
        let rest = matched(s, events.drop_last(), stream);
        if is_answer(events.last(), stream) && after(s, events.drop_last()).queue(stream).len() > 0 {
            rest + 1
        } else {
            rest
        }
    }
}

/// Of all that happens, only a request that was forwarded joins those that wait on a
/// stream, and only an answer there lets the first of them go.
pub proof fn lemma_one_happening(t: Router, e: Happening, stream: Stream)
    ensures
        dealt(t, e).0.queue(stream) == match e {
            Happening::Sent { stream: at, entry, ok } => if at == stream && ok {
                t.queue(stream).push(entry)
            } else {
                t.queue(stream)
            },
            _ => if is_answer(e, stream) && t.queue(stream).len() > 0 {
                t.queue(stream).remove(0)
            } else {
                t.queue(stream)
            },
        },
{
    reveal(dealt);
    match e {
        Happening::Request(request) => {
            lemma_only_answers_take_off(t, request, Seq::empty(), 0);
        },
        Happening::Step => {
            lemma_only_answers_take_off(t, Seq::empty(), Seq::empty(), 0);
        },
        Happening::Sent { stream: at, entry, ok } => {
            if at != stream {
                lemma_order_is_kept(t, at, stream, entry, ok);
            } else if stream == Stream::Body {
                lemma_order_is_kept(t, stream, Stream::Namespace, entry, ok);
            } else {
                lemma_order_is_kept(t, stream, Stream::Body, entry, ok);
            }
        },
        Happening::NsAnswer(resp) => {
            lemma_only_answers_take_off(t, Seq::empty(), resp, 0);
        },
        Happening::BodyAnswer(resp) => {
            lemma_only_answers_take_off(t, Seq::empty(), resp, 0);
        },
        Happening::ObjAnswer(ack) => {
            lemma_only_answers_take_off(t, Seq::empty(), Seq::empty(), ack);
        },
    }
}

/// Over a whole run what waits on a stream is what was forwarded there, in order, without
/// as many from the front as answers have come.
proof fn lemma_what_waits(s: Router, events: Seq<Happening>, stream: Stream)
    requires
        s.queue(stream).len() == 0,
    ensures
        matched(s, events, stream) <= asked(events, stream).len(),
        after(s, events).queue(stream) == asked(events, stream).skip(matched(s, events, stream) as int),
    decreases events.len(),
{
    if events.len() == 0 {
        assert(s.queue(stream) =~= asked(events, stream).skip(0));
    } else {
        let before = events.drop_last();
        lemma_what_waits(s, before, stream);
        let t = after(s, before);
        let k = matched(s, before, stream) as int;
        lemma_one_happening(t, events.last(), stream);
        match events.last() {
            Happening::Sent { stream: at, entry, ok } => {
                assert(asked(before, stream).push(entry).skip(k) =~= asked(before, stream).skip(k).push(entry));
            },
            _ => {
                if is_answer(events.last(), stream) && t.queue(stream).len() > 0 {
                    assert(t.queue(stream).remove(0) =~= asked(before, stream).skip(k + 1));
                }
            },
        }
    }
}

/// Over a whole run answers are paired with requests by their order: the answer that comes
/// after `k` others found theirs belongs to the request number `k` of those that were
/// forwarded on its stream, and what it leads to concerns that request. An answer when
/// nothing waits leads to nothing but one more error.
pub proof fn lemma_answers_are_paired_in_order(s: Router, events: Seq<Happening>, stream: Stream, e: Happening)
    requires
        s.queue(stream).len() == 0,
        is_answer(e, stream),
    ensures
        ({
            let t = after(s, events);
            let k = matched(s, events, stream);
            if k < asked(events, stream).len() {
                &&& t.queue(stream)[0] == asked(events, stream)[k as int]
                &&& dealt(t, e).0.queue(stream) == asked(events, stream).skip(k as int + 1)
                &&& is_client(asked(events, stream)[k as int]) ==> concerns(
                    dealt(t, e).1,
                    asked(events, stream)[k as int].correlation_id,
                )
            } else {
                &&& k == asked(events, stream).len()
                &&& dealt(t, e) == (
                    Router { apply_errors: t.apply_errors.wrapping_add(1), ..t },
                    Act::Done,
                )
            }
        }),
{
    lemma_what_waits(s, events, stream);
    let t = after(s, events);
    lemma_one_happening(t, e, stream);
    reveal(dealt);
    match e {
        Happening::NsAnswer(resp) => {
            lemma_answer_goes_to_the_oldest(t, resp, 0);
        },
        Happening::BodyAnswer(resp) => {
            lemma_answer_goes_to_the_oldest(t, resp, 0);
        },
        Happening::ObjAnswer(ack) => {
            lemma_answer_goes_to_the_oldest(t, Seq::empty(), ack);
        },
        _ => {},
    }
}

/// A blob is collected only if the namespace said that nothing leads to it, having looked
/// everywhere, and no file is in the course of being stored.
pub proof fn lemma_only_orphans_are_collected(s: Router, resp: Seq<u8>)
    requires
        s.wf(),
    ensures
        ({
            let act = s.gc_checked(resp).1;
            act matches Act::Forward { stream, frame, entry } ==> (entry.admin_op == GC_OP_DELETE ==> {
                &&& loam_wire::referenced_resp_parse(resp) == Ok::<(bool, u32), loam_wire::WireError>((false, 0))
                &&& !s.storing()
                &&& s.gc.digests.len() > 0
                &&& stream == Stream::Body
                &&& frame == loam_body_wire::delete_req_frame(s.gc.digests[s.gc.pos])
            })
        }),
{
}

/// What the collector asks about is the blob that it would remove: the question and the
/// removal are about the one that is looked at.
pub proof fn lemma_question_is_about_the_blob(s: Router)
    requires
        s.wf(),
        s.gc.digests.len() > 0,
    ensures
        s.gc_check().1 matches Act::Forward { stream, frame, entry } ==> {
            &&& stream == Stream::Namespace
            &&& entry.admin_op == GC_OP_CHECK
            &&& frame == loam_wire::referenced_req_frame(
                s.gc.check_cursor,
                admin_router_state::object_id(s.gc.digests[s.gc.pos]),
            )
            &&& s.gc_check().0 == s
        },
{
}

/// While the collector waits for an answer, nothing else changes what it looks at.
pub proof fn lemma_collector_waits(s: Router, request: Seq<u8>, resp: Seq<u8>, ack: u8)
    requires
        s.wf(),
    ensures
        s.take(request).0.gc == s.gc,
        s.ns.len() > 0 && is_client(s.ns[0]) ==> s.ns_answered(resp).0.gc == s.gc,
        s.body.len() > 0 && is_client(s.body[0]) ==> s.body_answered(resp).0.gc == s.gc,
        s.obj_answered(ack).0.gc == s.gc,
        s.gc.inflight || s.gc.digests.len() > 0 ==> s.step().0.gc == s.gc && s.step().1 is Done,
{
    assert(s.obj.len() > 0 ==> s.obj[0].wf());
}

/// Blobs that are stored under a key are never looked at, and all others of the page are.
pub proof fn lemma_keyed_blobs_are_left_alone(entries: Seq<(u8, Seq<u8>)>, digest: Seq<u8>)
    ensures
        admin_router_state::unkeyed(entries).contains(digest) <==> entries.contains((0u8, digest)),
    decreases entries.len(),
{
    if entries.len() > 0 {
        let before = entries.drop_last();
        lemma_keyed_blobs_are_left_alone(before, digest);
        let got = admin_router_state::unkeyed(before);
        let all = admin_router_state::unkeyed(entries);
        if before.contains((0u8, digest)) {
            let i = choose|i: int| 0 <= i < before.len() && before[i] == (0u8, digest);
            assert(entries[i] == (0u8, digest));
            let j = choose|j: int| 0 <= j < got.len() && got[j] == digest;
            assert(all[j] == digest);
        }
        if entries.contains((0u8, digest)) && !before.contains((0u8, digest)) {
            let i = choose|i: int| 0 <= i < entries.len() && entries[i] == (0u8, digest);
            if i < before.len() {
                assert(before[i] == (0u8, digest));
            }
            assert(all[all.len() - 1] == digest);
        }
        if all.contains(digest) && !got.contains(digest) {
            let j = choose|j: int| 0 <= j < all.len() && all[j] == digest;
            if j < got.len() {
                assert(got[j] == digest);
            }
            assert(entries[entries.len() - 1] == (0u8, digest));
        }
    }
}

} // verus!
