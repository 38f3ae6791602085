//! How many requests are under way for a file, and for the collector, and what the
//! requests for a file are one after the other.
use crate::admin_router_laws;
use crate::admin_router_state;
use crate::admin_router_state::{
    Act, Collector, PendingDownstream, PutFile, Router, Stream, GC_OP_CHECK, GC_OP_DELETE, GC_OP_SCAN, PUTFILE_CAP,
};
use crate::loam_admin_wire;
use crate::loam_body_wire;
use crate::loam_limits;
use crate::loam_object_wire;
use crate::loam_wire;
use vstd::prelude::*;

verus! {

/// What a request is for.
pub ghost enum Purpose {
    /// Storing the file in this place.
    File(int),
    /// A page of the inventory.
    Page,
    /// A blob that may be collected.
    Blob,
}

/// The request is for this.
pub open spec fn is_for(entry: PendingDownstream, purpose: Purpose) -> bool {
    match purpose {
        Purpose::File(i) => entry.admin_op == loam_admin_wire::OP_PUT_FILE && entry.putfile_idx == i,
        Purpose::Page => entry.admin_op == GC_OP_SCAN,
        Purpose::Blob => entry.admin_op == GC_OP_CHECK || entry.admin_op == GC_OP_DELETE,
    }
}

/// How many of the requests are for this.
pub open spec fn count(q: Seq<PendingDownstream>, purpose: Purpose) -> nat
    decreases q.len(),
{
    if q.len() == 0 {
        0
    } else {
        count(q.drop_last(), purpose) + if is_for(q.last(), purpose) {
            1nat
        } else {
            0nat
        }
    }
}

proof fn lemma_count_push(q: Seq<PendingDownstream>, entry: PendingDownstream, purpose: Purpose)
    ensures
        count(q.push(entry), purpose) == count(q, purpose) + if is_for(entry, purpose) {
            1nat
        } else {
            0nat
        },
{
    assert(q.push(entry).drop_last() =~= q);
}

proof fn lemma_count_remove(q: Seq<PendingDownstream>, purpose: Purpose)
    requires
        q.len() > 0,
    ensures
        count(q, purpose) == count(q.remove(0), purpose) + if is_for(q[0], purpose) {
            1nat
        } else {
            0nat
        },
    decreases q.len(),
{
    if q.len() == 1 {
        assert(q.remove(0) =~= Seq::empty());
        assert(q.drop_last() =~= Seq::empty());
        reveal_with_fuel(count, 2);
    } else {
        lemma_count_remove(q.drop_last(), purpose);
        assert(q.remove(0).drop_last() =~= q.drop_last().remove(0));
        assert(q.remove(0).last() == q.last());
    }
}

/// How many requests are under way for this: they wait for an answer, or are about to be
/// forwarded.
pub open spec fn under_way(s: Router, act: Act, purpose: Purpose) -> nat {
    count(s.ns, purpose) + count(s.body, purpose) + count(s.obj, purpose) + match act {
        Act::Forward { stream, frame, entry } => if is_for(entry, purpose) {
            1nat
        } else {
            0nat
        },
        _ => 0nat,
    }
}

/// Whether a request is to be under way for this.
pub open spec fn expected(s: Router, act: Act, purpose: Purpose) -> bool {
    match purpose {
        Purpose::File(i) => s.putfiles[i].in_use,
        Purpose::Page => s.gc.inflight || (act matches Act::Forward { stream, frame, entry } && entry.admin_op
            == GC_OP_SCAN),
        Purpose::Blob => s.gc.digests.len() > 0,
    }
}

/// The purposes that there are.
pub open spec fn valid(s: Router, purpose: Purpose) -> bool {
    purpose matches Purpose::File(i) ==> 0 <= i < s.putfiles.len()
}

/// What the collector asks of the body store goes there, and what it asks of the
/// namespace.
pub open spec fn placed(stream: Stream, entry: PendingDownstream) -> bool {
    &&& entry.admin_op == GC_OP_SCAN || entry.admin_op == GC_OP_DELETE ==> stream == Stream::Body
    &&& entry.admin_op == GC_OP_CHECK ==> stream == Stream::Namespace
}

/// Every request is where it belongs.
pub open spec fn all_placed(s: Router, act: Act) -> bool {
    &&& forall|i: int| 0 <= i < s.ns.len() ==> placed(Stream::Namespace, #[trigger] s.ns[i])
    &&& forall|i: int| 0 <= i < s.body.len() ==> placed(Stream::Body, #[trigger] s.body[i])
    &&& forall|i: int| 0 <= i < s.obj.len() ==> placed(Stream::Object, #[trigger] s.obj[i])
    &&& act matches Act::Forward { stream, frame, entry } ==> placed(stream, entry)
}

/// For every file that is in the course of being stored just one request is under way,
/// and for a free place none; the collector is at one thing at a time, for which one
/// request is under way.
pub open spec fn in_step(s: Router, act: Act) -> bool {
    &&& all_placed(s, act)
    &&& forall|purpose: Purpose|
        #![trigger under_way(s, act, purpose)]
        valid(s, purpose) ==> under_way(s, act, purpose) == if expected(s, act, purpose) {
            1nat
        } else {
            0nat
        }
    &&& !(s.gc.inflight && s.gc.digests.len() > 0)
    &&& act matches Act::Forward { stream, frame, entry } ==> (entry.admin_op == GC_OP_SCAN ==> !s.gc.inflight
        && s.gc.digests.len() == 0)
}

/// A new router is in step.
pub proof fn lemma_new_is_in_step(s: Router)
    requires
        s.wf(),
        s.ns.len() == 0 && s.body.len() == 0 && s.obj.len() == 0,
        !s.storing(),
        !s.gc.inflight && s.gc.digests.len() == 0,
    ensures
        in_step(s, Act::Done),
{
}

/// A router that differs from one in step only in what is not counted is in step too.
proof fn lemma_same(s: Router, t: Router, act: Act)
    requires
        in_step(s, Act::Done),
        t.ns == s.ns && t.body == s.body && t.obj == s.obj,
        t.putfiles.len() == s.putfiles.len(),
        forall|i: int|
            0 <= i < s.putfiles.len() ==> (#[trigger] t.putfiles[i]).in_use == s.putfiles[i].in_use,
        t.gc.inflight == s.gc.inflight && (t.gc.digests.len() > 0 <==> s.gc.digests.len() > 0),
        act matches Act::Forward { stream, frame, entry } ==> entry.admin_op != loam_admin_wire::OP_PUT_FILE
            && admin_router_laws::is_client(entry),
    ensures
        in_step(t, act),
{
    assert forall|purpose: Purpose| #![trigger under_way(t, act, purpose)] valid(t, purpose) implies under_way(
        t,
        act,
        purpose,
    ) == if expected(t, act, purpose) {
        1nat
    } else {
        0nat
    } by {
        let _ = under_way(s, Act::Done, purpose);
    }
}

proof fn lemma_unsent(s: Router, stream: Stream, frame: Seq<u8>, entry: PendingDownstream, full: bool)
    requires
        s.wf(),
        entry.wf(),
        in_step(s, Act::Forward { stream, frame, entry }),
    ensures
        in_step(s.unsent(entry, full).0, s.unsent(entry, full).1),
{
    let act = Act::Forward { stream, frame, entry };
    let (t, after) = s.unsent(entry, full);
    assert forall|purpose: Purpose| #![trigger under_way(t, after, purpose)] valid(t, purpose) implies under_way(
        t,
        after,
        purpose,
    ) == if expected(t, after, purpose) {
        1nat
    } else {
        0nat
    } by {
        let _ = under_way(s, act, purpose);
    }
    let _ = under_way(s, act, Purpose::Blob);
    let _ = under_way(s, act, Purpose::Page);
}

proof fn lemma_forward(s: Router, stream: Stream, frame: Seq<u8>, entry: PendingDownstream)
    requires
        s.wf(),
        entry.wf(),
        in_step(s, Act::Forward { stream, frame, entry }),
    ensures
        in_step(s.forward(stream, entry, frame).0, s.forward(stream, entry, frame).1),
{
    if !s.has_room(stream) {
        lemma_unsent(s, stream, frame, entry, true);
    }
}

/// Forwarding a request, or failing to, keeps the router in step.
pub proof fn lemma_forwarding_keeps_step(
    s: Router,
    stream: Stream,
    frame: Seq<u8>,
    entry: PendingDownstream,
    ok: bool,
)
    requires
        s.wf(),
        s.fits(Act::Forward { stream, frame, entry }),
        in_step(s, Act::Forward { stream, frame, entry }),
    ensures
        in_step(s.forwarded_as(stream, entry, ok).0, s.forwarded_as(stream, entry, ok).1),
{
    let act = Act::Forward { stream, frame, entry };
    if !ok {
        lemma_unsent(s, stream, frame, entry, false);
    } else {
        let (t, after) = s.forwarded_as(stream, entry, ok);
        assert forall|purpose: Purpose| #![trigger under_way(t, after, purpose)] valid(t, purpose) implies under_way(
            t,
            after,
            purpose,
        ) == if expected(t, after, purpose) {
            1nat
        } else {
            0nat
        } by {
            let _ = under_way(s, act, purpose);
            lemma_count_push(s.queue(stream), entry, purpose);
        }
    }
}

/// Taking a request keeps the router in step.
#[verifier::rlimit(60)]
#[verifier::spinoff_prover]
pub proof fn lemma_request_keeps_step(s: Router, request: Seq<u8>)
    requires
        s.wf(),
        in_step(s, Act::Done),
    ensures
        in_step(s.take(request).0, s.take(request).1),
{
    let (t, act) = s.take(request);
    if request.len() > 0 && request[0] == loam_admin_wire::OP_PUT_FILE {
        lemma_put_file(s, request);
    } else {
        lemma_same(s, t, act);
    }
}

proof fn lemma_put_file(s: Router, request: Seq<u8>)
    requires
        s.wf(),
        in_step(s, Act::Done),
    ensures
        in_step(s.put_file(request).0, s.put_file(request).1),
{
    let (t, act) = s.put_file(request);
    lemma_free_putfile(s.putfiles, 0);
    match loam_admin_wire::admin_put_file_parse(request) {
        Err(_) => {
            lemma_same(s, t, act);
        },
        Ok((cid, root, path, kind, revision, body)) => {
            if !s.body_wired || !s.obj_wired || admin_router_state::free_putfile(s.putfiles, 0) is None {
                lemma_same(s, t, act);
            } else {
                let idx = admin_router_state::free_putfile(s.putfiles, 0).unwrap();
                let slot = PutFile {
                    in_use: true,
                    stage: admin_router_state::PUTFILE_STAGE_BODY,
                    correlation_id: cid,
                    kind,
                    digest: Seq::new(32, |i: int| 0u8),
                    body_len: body.len() as u32,
                    revision,
                    ns_root: root,
                    path,
                };
                let u = Router { putfiles: s.putfiles.update(idx, slot), ..s };
                if loam_body_wire::put_req_refusal(admin_router_state::SCRATCH as nat, body) is Some {
                    lemma_same(s, t, act);
                } else {
                    let entry = admin_router_state::pending(loam_admin_wire::OP_PUT_FILE, cid, idx as u16);
                    let frame = loam_body_wire::put_req_frame(body);
                    lemma_taken(s, u, idx, entry, Stream::Body, frame);
                    assert(slot.wf());
                    lemma_forward(u, Stream::Body, frame, entry);
                }
            }
        },
    }
}

proof fn lemma_free_putfile(s: Seq<PutFile>, from: int)
    requires
        0 <= from,
    ensures
        admin_router_state::free_putfile(s, from) matches Some(i) ==> from <= i < s.len() && !s[i].in_use,
    decreases s.len() - from,
{
    if from < s.len() && s[from].in_use {
        lemma_free_putfile(s, from + 1);
    }
}

/// A place that was free is taken, and a request for it is about to be forwarded.
proof fn lemma_taken(s: Router, t: Router, idx: int, entry: PendingDownstream, stream: Stream, frame: Seq<u8>)
    requires
        in_step(s, Act::Done),
        0 <= idx < s.putfiles.len() <= PUTFILE_CAP,
        !s.putfiles[idx].in_use,
        t.ns == s.ns && t.body == s.body && t.obj == s.obj && t.gc == s.gc,
        t.putfiles.len() == s.putfiles.len(),
        t.putfiles[idx].in_use,
        forall|i: int|
            0 <= i < s.putfiles.len() && i != idx ==> (#[trigger] t.putfiles[i]).in_use == s.putfiles[i].in_use,
        entry.admin_op == loam_admin_wire::OP_PUT_FILE && entry.putfile_idx == idx,
    ensures
        in_step(t, Act::Forward { stream, frame, entry }),
{
    let act = Act::Forward { stream, frame, entry };
    assert forall|purpose: Purpose| #![trigger under_way(t, act, purpose)] valid(t, purpose) implies under_way(
        t,
        act,
        purpose,
    ) == if expected(t, act, purpose) {
        1nat
    } else {
        0nat
    } by {
        let _ = under_way(s, Act::Done, purpose);
    }
}

/// A step that begins keeps the router in step.
pub proof fn lemma_beginning_keeps_step(s: Router)
    requires
        s.wf(),
        in_step(s, Act::Done),
    ensures
        in_step(s.step().0, s.step().1),
{
    let (t, act) = s.step();
    let u = Router { ticks: s.ticks.wrapping_add(1), ..s };
    let frame = loam_body_wire::scan_req_frame(u.gc.cursor, loam_body_wire::MAX_SCAN_DIGESTS as u8);
    let entry = admin_router_state::pending(GC_OP_SCAN, 0, 0);
    if act is Done {
        lemma_same(s, t, act);
    } else {
        assert forall|purpose: Purpose| #![trigger under_way(t, act, purpose)] valid(t, purpose) implies under_way(
            t,
            act,
            purpose,
        ) == if expected(t, act, purpose) {
            1nat
        } else {
            0nat
        } by {
            let _ = under_way(s, Act::Done, purpose);
        }
    }
}

/// The request that an answer belongs to is off the queue; it stands for itself until it
/// is dealt with.
proof fn lemma_off(s: Router, stream: Stream, t: Router)
    requires
        in_step(s, Act::Done),
        s.queue(stream).len() > 0,
        t == s.with_queue(stream, s.queue(stream).remove(0)),
    ensures
        in_step(
            Router { gc: Collector { inflight: s.gc.inflight && s.queue(stream)[0].admin_op != GC_OP_SCAN, ..s.gc }, ..t },
            Act::Forward { stream, frame: Seq::empty(), entry: s.queue(stream)[0] },
        ),
{
    let entry = s.queue(stream)[0];
    let act = Act::Forward { stream, frame: Seq::empty(), entry };
    let u = Router { gc: Collector { inflight: s.gc.inflight && entry.admin_op != GC_OP_SCAN, ..s.gc }, ..t };
    assert forall|purpose: Purpose| #![trigger under_way(u, act, purpose)] valid(u, purpose) implies under_way(
        u,
        act,
        purpose,
    ) == if expected(u, act, purpose) {
        1nat
    } else {
        0nat
    } by {
        let _ = under_way(s, Act::Done, purpose);
        lemma_count_remove(s.queue(stream), purpose);
    }
    let _ = under_way(s, Act::Done, Purpose::Page);
    lemma_count_remove(s.queue(stream), Purpose::Page);
}

/// What is about a request that is dealt with otherwise than by forwarding one for the
/// same purpose.
proof fn lemma_dealt_with(s: Router, stream: Stream, entry: PendingDownstream, t: Router, act: Act)
    requires
        in_step(s, Act::Forward { stream, frame: Seq::empty(), entry }),
        entry.wf(),
        s.putfiles.len() == PUTFILE_CAP,
        t.ns == s.ns && t.body == s.body && t.obj == s.obj,
        t.putfiles.len() == s.putfiles.len(),
        forall|i: int|
            0 <= i < s.putfiles.len() ==> (#[trigger] t.putfiles[i]).in_use == (s.putfiles[i].in_use && !(entry.admin_op
                == loam_admin_wire::OP_PUT_FILE && entry.putfile_idx == i)),
        t.gc.inflight == s.gc.inflight,
        t.gc.digests.len() > 0 <==> s.gc.digests.len() > 0 && entry.admin_op != GC_OP_CHECK && entry.admin_op
            != GC_OP_DELETE,
        act matches Act::Forward { stream: st, frame: f, entry: e } ==> e.admin_op != loam_admin_wire::OP_PUT_FILE
            && admin_router_laws::is_client(e),
    ensures
        in_step(t, act),
{
    let before = Act::Forward { stream, frame: Seq::empty(), entry };
    assert forall|purpose: Purpose| #![trigger under_way(t, act, purpose)] valid(t, purpose) implies under_way(
        t,
        act,
        purpose,
    ) == if expected(t, act, purpose) {
        1nat
    } else {
        0nat
    } by {
        let _ = under_way(s, before, purpose);
    }
}

/// A request is dealt with by forwarding another for the same purpose.
proof fn lemma_passed_on(
    s: Router,
    stream: Stream,
    entry: PendingDownstream,
    t: Router,
    next: Stream,
    frame: Seq<u8>,
    with: PendingDownstream,
)
    requires
        in_step(s, Act::Forward { stream, frame: Seq::empty(), entry }),
        t.ns == s.ns && t.body == s.body && t.obj == s.obj,
        t.putfiles.len() == s.putfiles.len(),
        forall|i: int| 0 <= i < s.putfiles.len() ==> (#[trigger] t.putfiles[i]).in_use == s.putfiles[i].in_use,
        t.gc.inflight == s.gc.inflight && (t.gc.digests.len() > 0 <==> s.gc.digests.len() > 0),
        entry.admin_op == loam_admin_wire::OP_PUT_FILE && with.admin_op == loam_admin_wire::OP_PUT_FILE
            && with.putfile_idx == entry.putfile_idx || (is_for(entry, Purpose::Blob) && is_for(with, Purpose::Blob)),
        placed(next, with),
    ensures
        in_step(t, Act::Forward { stream: next, frame, entry: with }),
{
    let before = Act::Forward { stream, frame: Seq::empty(), entry };
    let act = Act::Forward { stream: next, frame, entry: with };
    assert forall|purpose: Purpose| #![trigger under_way(t, act, purpose)] valid(t, purpose) implies under_way(
        t,
        act,
        purpose,
    ) == if expected(t, act, purpose) {
        1nat
    } else {
        0nat
    } by {
        let _ = under_way(s, before, purpose);
    }
}

proof fn lemma_gc_next(s: Router, stream: Stream, entry: PendingDownstream)
    requires
        s.wf(),
        in_step(s, Act::Forward { stream, frame: Seq::empty(), entry }),
        is_for(entry, Purpose::Blob),
        entry.wf(),
    ensures
        in_step(s.gc_next().0, s.gc_next().1),
{
    let (t, act) = s.gc_next();
    if let Act::Forward { stream: next, frame, entry: with } = act {
        lemma_passed_on(s, stream, entry, t, next, frame, with);
    } else {
        lemma_dealt_with(s, stream, entry, t, act);
    }
}

/// An answer of the namespace keeps the router in step.
pub proof fn lemma_ns_answer_keeps_step(s: Router, resp: Seq<u8>)
    requires
        s.wf(),
        in_step(s, Act::Done),
    ensures
        in_step(s.ns_answered(resp).0, s.ns_answered(resp).1),
{
    let (t, act) = s.ns_answered(resp);
    if s.ns.len() == 0 {
        lemma_same(s, t, act);
    } else {
        let entry = s.ns[0];
        let u = Router { ns: s.ns.remove(0), ..s };
        lemma_off(s, Stream::Namespace, u);
        lemma_count_remove(s.ns, Purpose::Page);
        let v = Router { gc: Collector { inflight: s.gc.inflight && entry.admin_op != GC_OP_SCAN, ..s.gc }, ..u };
        assert(entry.wf());
        if entry.admin_op == GC_OP_CHECK {
            assert(v == u);
            let before = Act::Forward { stream: Stream::Namespace, frame: Seq::empty(), entry };
            let _ = under_way(v, before, Purpose::Blob);
            let w = Router { gc: Collector { checked: u.gc.checked.wrapping_add(1), ..u.gc }, ..u };
            let (referenced, next) = match loam_wire::referenced_resp_parse(resp) {
                Ok(r) => r,
                Err(_) => (true, 0u32),
            };
            if !referenced && next != 0 {
                if let Act::Forward { stream, frame, entry: with } = act {
                    lemma_passed_on(v, Stream::Namespace, entry, t, stream, frame, with);
                } else {
                    lemma_dealt_with(v, Stream::Namespace, entry, t, act);
                }
            } else if referenced || w.storing() {
                let x = Router { gc: Collector { check_cursor: 0, kept: w.gc.kept.wrapping_add(1), ..w.gc }, ..w };
                lemma_passed_on(v, Stream::Namespace, entry, x, Stream::Namespace, Seq::empty(), entry);
                assert(x.wf());
                lemma_gc_next(x, Stream::Namespace, entry);
            } else {
                let x = Router { gc: Collector { check_cursor: 0, ..w.gc }, ..w };
                let with = admin_router_state::pending(GC_OP_DELETE, 0, 0);
                let frame = loam_body_wire::delete_req_frame(s.gc.digests[s.gc.pos]);
                lemma_passed_on(v, Stream::Namespace, entry, x, Stream::Body, frame, with);
                assert(x.wf());
                lemma_forward(x, Stream::Body, frame, with);
            }
        } else {
            assert(placed(Stream::Namespace, entry));
            assert(v == u);
            lemma_dealt_with(v, Stream::Namespace, entry, t, act);
        }
    }
}

/// An answer of the object index keeps the router in step.
pub proof fn lemma_obj_answer_keeps_step(s: Router, ack: u8)
    requires
        s.wf(),
        in_step(s, Act::Done),
    ensures
        in_step(s.obj_answered(ack).0, s.obj_answered(ack).1),
{
    let (t, act) = s.obj_answered(ack);
    if s.obj.len() == 0 {
        lemma_same(s, t, act);
    } else {
        let entry = s.obj[0];
        let u = Router { obj: s.obj.remove(0), ..s };
        lemma_off(s, Stream::Object, u);
        assert(entry.wf());
        let v = Router { gc: Collector { inflight: s.gc.inflight && entry.admin_op != GC_OP_SCAN, ..s.gc }, ..u };
        assert(v == u);
        if ack != loam_object_wire::OP_OBJ_PUT {
            lemma_dealt_with(u, Stream::Object, entry, t, act);
        } else {
            let idx = entry.putfile_idx as int;
            let slot = u.putfiles[idx];
            let w = Router {
                putfiles: u.putfiles.update(idx, PutFile { stage: admin_router_state::PUTFILE_STAGE_BIND, ..slot }),
                ..u
            };
            let with = admin_router_state::pending(loam_admin_wire::OP_PUT_FILE, entry.correlation_id, idx as u16);
            let frame = loam_wire::bind_frame(
                slot.ns_root,
                slot.path,
                admin_router_state::object_id(slot.digest),
                slot.kind,
                slot.revision,
            );
            lemma_passed_on(u, Stream::Object, entry, w, Stream::Namespace, frame, with);
            assert(w.wf());
            lemma_forward(w, Stream::Namespace, frame, with);
        }
    }
}

/// An answer of the body store keeps the router in step.
pub proof fn lemma_body_answer_keeps_step(s: Router, resp: Seq<u8>)
    requires
        s.wf(),
        in_step(s, Act::Done),
    ensures
        in_step(s.body_answered(resp).0, s.body_answered(resp).1),
{
    let (t, act) = s.body_answered(resp);
    if s.body.len() == 0 {
        lemma_same(s, t, act);
    } else {
        let entry = s.body[0];
        let u = Router { body: s.body.remove(0), ..s };
        lemma_off(s, Stream::Body, u);
        assert(entry.wf() && placed(Stream::Body, entry));
        let v = Router { gc: Collector { inflight: s.gc.inflight && entry.admin_op != GC_OP_SCAN, ..s.gc }, ..u };
        let before = Act::Forward { stream: Stream::Body, frame: Seq::empty(), entry };
        assert(u.wf());
        if entry.admin_op == loam_admin_wire::OP_PUT_FILE {
            assert(v == u);
            lemma_file_body_stored(u, entry, resp);
        } else if entry.admin_op == loam_admin_wire::OP_PUT_FILE_COMMIT {
            assert(v == u);
            lemma_dealt_with(u, Stream::Body, entry, u, Act::Done);
            lemma_stream_committed(u, entry, resp);
        } else if entry.admin_op == GC_OP_SCAN {
            let _ = under_way(s, Act::Done, Purpose::Page);
            let _ = under_way(s, Act::Done, Purpose::Blob);
            lemma_count_remove(s.body, Purpose::Page);
            lemma_count_remove(s.body, Purpose::Blob);
            assert(s.gc.inflight);
            lemma_page_came(s, u, entry, resp);
        } else if entry.admin_op == GC_OP_DELETE {
            assert(v == u);
            let w = if resp.len() > 0 && resp[0] == loam_body_wire::OP_DELETE {
                Router { gc: Collector { deleted: u.gc.deleted.wrapping_add(1), ..u.gc }, ..u }
            } else {
                u.erred()
            };
            lemma_passed_on(u, Stream::Body, entry, w, Stream::Body, Seq::empty(), entry);
            assert(w.wf());
            lemma_gc_next(w, Stream::Body, entry);
        } else {
            assert(v == u);
            lemma_dealt_with(u, Stream::Body, entry, t, act);
        }
    }
}

proof fn lemma_describe(s: Router, idx: int, cid: u32, stream: Stream, entry: PendingDownstream)
    requires
        s.wf(),
        0 <= idx < PUTFILE_CAP,
        in_step(
            s,
            Act::Forward {
                stream,
                frame: Seq::empty(),
                entry,
            },
        ),
        entry.admin_op == loam_admin_wire::OP_PUT_FILE && entry.putfile_idx == idx,
    ensures
        in_step(s.describe(idx, cid).0, s.describe(idx, cid).1),
{
    let slot = s.putfiles[idx];
    let id = admin_router_state::object_id(slot.digest);
    let w = Router {
        putfiles: s.putfiles.update(idx, PutFile { stage: admin_router_state::PUTFILE_STAGE_OBJECT, ..slot }),
        ..s
    };
    let with = admin_router_state::pending(loam_admin_wire::OP_PUT_FILE, cid, idx as u16);
    let frame = loam_object_wire::put_frame(
        loam_object_wire::OP_OBJ_PUT,
        id,
        slot.ns_root,
        slot.path,
        id,
        slot.body_len as u64,
        slot.revision,
        loam_object_wire::DATA_CLASS_LOCAL,
        1,
        None,
    );
    lemma_passed_on(s, stream, entry, w, Stream::Object, frame, with);
    assert(w.wf());
    lemma_forward(w, Stream::Object, frame, with);
}

proof fn lemma_file_body_stored(s: Router, entry: PendingDownstream, resp: Seq<u8>)
    requires
        s.wf(),
        entry.wf(),
        entry.admin_op == loam_admin_wire::OP_PUT_FILE,
        in_step(s, Act::Forward { stream: Stream::Body, frame: Seq::empty(), entry }),
    ensures
        in_step(s.file_body_stored(entry, resp).0, s.file_body_stored(entry, resp).1),
{
    let (t, act) = s.file_body_stored(entry, resp);
    let idx = entry.putfile_idx as int;
    match loam_body_wire::put_resp_parse(resp) {
        Err(_) => {
            lemma_dealt_with(s, Stream::Body, entry, t, act);
        },
        Ok(digest) => {
            let w = Router { putfiles: s.putfiles.update(idx, PutFile { digest, ..s.putfiles[idx] }), ..s };
            lemma_passed_on(s, Stream::Body, entry, w, Stream::Body, Seq::empty(), entry);
            assert(w.putfiles[idx].wf());
            assert(w.wf());
            lemma_describe(w, idx, entry.correlation_id, Stream::Body, entry);
        },
    }
}

proof fn lemma_stream_committed(s: Router, entry: PendingDownstream, resp: Seq<u8>)
    requires
        s.wf(),
        entry.wf(),
        entry.admin_op == loam_admin_wire::OP_PUT_FILE_COMMIT,
        in_step(s, Act::Done),
    ensures
        in_step(s.stream_committed(entry, resp).0, s.stream_committed(entry, resp).1),
{
    let (t, act) = s.stream_committed(entry, resp);
    let idx = entry.putfile_idx as int;
    let cid = entry.correlation_id;
    let spf = s.spf[idx];
    assert(spf.wf());
    let u = s.free_spf(idx);
    assert(u.wf());
    lemma_free_putfile(s.putfiles, 0);
    if loam_body_wire::wcommit_resp_parse(resp) != Ok::<Seq<u8>, loam_body_wire::WireError>(spf.digest)
        || admin_router_state::free_putfile(s.putfiles, 0) is None {
        lemma_same(s, t, act);
    } else {
        let place = admin_router_state::free_putfile(s.putfiles, 0).unwrap();
        let slot = PutFile {
            in_use: true,
            stage: s.putfiles[place].stage,
            correlation_id: cid,
            kind: spf.kind,
            digest: spf.digest,
            body_len: if spf.total_len <= u32::MAX {
                spf.total_len as u32
            } else {
                u32::MAX
            },
            revision: spf.revision,
            ns_root: spf.ns_root,
            path: spf.path,
        };
        let w = Router { putfiles: u.putfiles.update(place, slot), ..u };
        assert(slot.wf());
        assert(w.wf());
        let with = admin_router_state::pending(loam_admin_wire::OP_PUT_FILE, cid, place as u16);
        lemma_taken(s, w, place, with, Stream::Body, Seq::empty());
        lemma_describe(w, place, cid, Stream::Body, with);
    }
}

proof fn lemma_page_came(s: Router, u: Router, entry: PendingDownstream, resp: Seq<u8>)
    requires
        s.wf(),
        in_step(s, Act::Done),
        s.body.len() > 0,
        entry == s.body[0],
        entry.admin_op == GC_OP_SCAN,
        s.gc.inflight,
        u == (Router { body: s.body.remove(0), ..s }),
    ensures
        in_step(u.gc_scanned(resp).0, u.gc_scanned(resp).1),
{
    let (t, act) = u.gc_scanned(resp);
    assert forall|purpose: Purpose| #![trigger under_way(t, act, purpose)] valid(t, purpose) implies under_way(
        t,
        act,
        purpose,
    ) == if expected(t, act, purpose) {
        1nat
    } else {
        0nat
    } by {
        let _ = under_way(s, Act::Done, purpose);
        lemma_count_remove(s.body, purpose);
    }
}

/// Storing a file is: its body is stored, then its description, under the digest that
/// the body store gave, and then its path is bound to that. Only then is it acknowledged,
/// with the digest, and its place is free again. Without anything else under way.
#[verifier::rlimit(60)]
#[verifier::spinoff_prover]
pub proof fn lemma_file_is_stored_in_order(
    s: Router,
    idx: int,
    cid: u32,
    root: Seq<u8>,
    path: Seq<u8>,
    kind: u8,
    revision: u64,
    body: Seq<u8>,
    digest: Seq<u8>,
)
    requires
        s.wf(),
        s.body_wired && s.obj_wired,
        s.ns.len() == 0 && s.body.len() == 0 && s.obj.len() == 0,
        admin_router_state::free_putfile(s.putfiles, 0) == Some(idx),
        loam_limits::key_verdict(root.len(), path.len(), 0) is Ok,
        body.len() <= loam_body_wire::MAX_BODY,
        digest.len() == 32,
    ensures
        ({
            let id = admin_router_state::object_id(digest);
            let entry = admin_router_state::pending(loam_admin_wire::OP_PUT_FILE, cid, idx as u16);
            let (s1, a1) = s.take(loam_admin_wire::admin_put_file_frame(cid, root, path, kind, revision, body));
            let s2 = s1.forwarded_as(Stream::Body, entry, true).0;
            let (s3, a3) = s2.body_answered(loam_body_wire::put_resp_frame(digest));
            let s4 = s3.forwarded_as(Stream::Object, entry, true).0;
            let (s5, a5) = s4.obj_answered(loam_object_wire::OP_OBJ_PUT);
            let s6 = s5.forwarded_as(Stream::Namespace, entry, true).0;
            let (s7, a7) = s6.ns_answered(seq![loam_wire::OP_BIND]);
            &&& a1 == Act::Forward { stream: Stream::Body, frame: loam_body_wire::put_req_frame(body), entry }
            &&& a3 == Act::Forward {
                stream: Stream::Object,
                frame: loam_object_wire::put_frame(
                    loam_object_wire::OP_OBJ_PUT,
                    id,
                    root,
                    path,
                    id,
                    body.len() as u64,
                    revision,
                    loam_object_wire::DATA_CLASS_LOCAL,
                    1,
                    None,
                ),
                entry,
            }
            &&& a5 == Act::Forward {
                stream: Stream::Namespace,
                frame: loam_wire::bind_frame(root, path, id, kind, revision),
                entry,
            }
            &&& a7 == Act::Reply {
                frame: loam_admin_wire::digest_ack_frame(
                    loam_admin_wire::OP_PUT_FILE,
                    cid,
                    loam_admin_wire::STATUS_OK,
                    Some(digest),
                ),
            }
            &&& !s7.putfiles[idx].in_use
        }),
{
    let request = loam_admin_wire::admin_put_file_frame(cid, root, path, kind, revision, body);
    loam_admin_wire::lemma_admin_put_file_round_trip(cid, root, path, kind, revision, body, Seq::empty());
    assert(request + Seq::<u8>::empty() =~= request);
    assert(request[0] == loam_admin_wire::OP_PUT_FILE);
    lemma_free_putfile(s.putfiles, 0);
    let entry = admin_router_state::pending(loam_admin_wire::OP_PUT_FILE, cid, idx as u16);
    let s1 = s.take(request).0;
    let s2 = s1.forwarded_as(Stream::Body, entry, true).0;
    let resp = loam_body_wire::put_resp_frame(digest);
    loam_body_wire::lemma_put_resp_round_trip(digest, Seq::empty());
    assert(resp + Seq::<u8>::empty() =~= resp);
    assert(s2.body =~= seq![entry]);
    let s3 = s2.body_answered(resp).0;
    let s4 = s3.forwarded_as(Stream::Object, entry, true).0;
    assert(s4.obj =~= seq![entry]);
    let s5 = s4.obj_answered(loam_object_wire::OP_OBJ_PUT).0;
    let s6 = s5.forwarded_as(Stream::Namespace, entry, true).0;
    assert(s6.ns =~= seq![entry]);
}

/// Reading a file is: its path is looked up, and then the body is asked for whose digest
/// the object's id stands for; the bytes that come are the answer. Without anything else
/// under way.
#[verifier::rlimit(60)]
#[verifier::spinoff_prover]
pub proof fn lemma_file_is_read_in_order(
    s: Router,
    cid: u32,
    root: Seq<u8>,
    path: Seq<u8>,
    kind: u8,
    revision: u64,
    body: Seq<u8>,
    digest: Seq<u8>,
)
    requires
        s.wf(),
        s.body_wired,
        s.ns.len() == 0 && s.body.len() == 0,
        loam_limits::key_verdict(root.len(), path.len(), 0) is Ok,
        body.len() <= loam_body_wire::MAX_BODY,
        digest.len() == 32,
    ensures
        ({
            let op = loam_admin_wire::OP_GET_FILE;
            let entry = admin_router_state::pending(op, cid, 0);
            let (s1, a1) = s.take(loam_admin_wire::path_req_frame(op, cid, root, path));
            let s2 = s1.forwarded_as(Stream::Namespace, entry, true).0;
            let (s3, a3) = s2.ns_answered(
                loam_wire::lookup_found_frame(admin_router_state::object_id(digest), revision, kind),
            );
            let s4 = s3.forwarded_as(Stream::Body, entry, true).0;
            let a5 = s4.body_answered(loam_body_wire::get_resp_frame(body)).1;
            &&& a1 == Act::Forward {
                stream: Stream::Namespace,
                frame: loam_wire::lookup_req_frame(root, path),
                entry,
            }
            &&& a3 == Act::Forward { stream: Stream::Body, frame: loam_body_wire::get_req_frame(digest), entry }
            &&& a5 == Act::Reply {
                frame: loam_admin_wire::body_ack_frame(op, cid, loam_admin_wire::STATUS_OK, Some(body)),
            }
        }),
{
    let op = loam_admin_wire::OP_GET_FILE;
    let entry = admin_router_state::pending(op, cid, 0);
    let request = loam_admin_wire::path_req_frame(op, cid, root, path);
    loam_admin_wire::lemma_path_req_round_trip(op, cid, root, path, Seq::empty());
    assert(request + Seq::<u8>::empty() =~= request);
    assert(request[0] == op);
    let s1 = s.take(request).0;
    let s2 = s1.forwarded_as(Stream::Namespace, entry, true).0;
    assert(s2.ns =~= seq![entry]);
    let id = admin_router_state::object_id(digest);
    let found = loam_wire::lookup_found_frame(id, revision, kind);
    loam_wire::lemma_lookup_resp_round_trip(id, revision, kind, Seq::empty());
    assert(found + Seq::<u8>::empty() =~= found);
    admin_router_laws::lemma_id_leads_back(digest);
    let s3 = s2.ns_answered(found).0;
    let s4 = s3.forwarded_as(Stream::Body, entry, true).0;
    assert(s4.body =~= seq![entry]);
    let resp = loam_body_wire::get_resp_frame(body);
    loam_body_wire::lemma_get_resp_round_trip(body, Seq::empty());
    assert(resp + Seq::<u8>::empty() =~= resp);
}

proof fn lemma_unsent_leaves_alone(s: Router, idx: int, entry: PendingDownstream, full: bool)
    requires
        s.wf(),
        0 <= idx < s.putfiles.len(),
        entry.wf(),
        !is_for(entry, Purpose::File(idx)),
    ensures
        s.unsent(entry, full).0.putfiles[idx] == s.putfiles[idx],
{
}

/// A file that is in the course of being stored is left alone by other requests, and
/// when a step begins.
pub proof fn lemma_requests_leave_files_alone(s: Router, idx: int, request: Seq<u8>)
    requires
        s.wf(),
        0 <= idx < s.putfiles.len(),
        s.putfiles[idx].in_use,
    ensures
        s.take(request).0.putfiles[idx] == s.putfiles[idx],
        s.step().0.putfiles[idx] == s.putfiles[idx],
{
    lemma_free_putfile(s.putfiles, 0);
}

/// A file that is in the course of being stored is left alone by the answers to other
/// requests, and by what is forwarded for them.
pub proof fn lemma_answers_leave_files_alone(
    s: Router,
    idx: int,
    resp: Seq<u8>,
    ack: u8,
    stream: Stream,
    entry: PendingDownstream,
    ok: bool,
)
    requires
        s.wf(),
        0 <= idx < s.putfiles.len(),
        s.putfiles[idx].in_use,
        entry.wf(),
    ensures
        s.ns.len() > 0 && !is_for(s.ns[0], Purpose::File(idx)) ==> s.ns_answered(resp).0.putfiles[idx]
            == s.putfiles[idx],
        s.body.len() > 0 && !is_for(s.body[0], Purpose::File(idx)) ==> s.body_answered(resp).0.putfiles[idx]
            == s.putfiles[idx],
        s.obj.len() > 0 && !is_for(s.obj[0], Purpose::File(idx)) ==> s.obj_answered(ack).0.putfiles[idx]
            == s.putfiles[idx],
        !is_for(entry, Purpose::File(idx)) ==> s.forwarded_as(stream, entry, ok).0.putfiles[idx] == s.putfiles[idx],
{
    lemma_ns_answer_leaves_alone(s, idx, resp);
    lemma_body_answer_leaves_alone(s, idx, resp);
    assert(s.obj.len() > 0 ==> s.obj[0].wf());
    if !is_for(entry, Purpose::File(idx)) {
        lemma_unsent_leaves_alone(s, idx, entry, false);
    }
}

proof fn lemma_ns_answer_leaves_alone(s: Router, idx: int, resp: Seq<u8>)
    requires
        s.wf(),
        0 <= idx < s.putfiles.len(),
        s.putfiles[idx].in_use,
    ensures
        s.ns.len() > 0 && !is_for(s.ns[0], Purpose::File(idx)) ==> s.ns_answered(resp).0.putfiles[idx]
            == s.putfiles[idx],
{
    assert(s.ns.len() > 0 ==> s.ns[0].wf());
}

proof fn lemma_body_answer_leaves_alone(s: Router, idx: int, resp: Seq<u8>)
    requires
        s.wf(),
        0 <= idx < s.putfiles.len(),
        s.putfiles[idx].in_use,
    ensures
        s.body.len() > 0 && !is_for(s.body[0], Purpose::File(idx)) ==> s.body_answered(resp).0.putfiles[idx]
            == s.putfiles[idx],
{
    lemma_free_putfile(s.putfiles, 0);
    assert(s.body.len() > 0 ==> s.body[0].wf());
}

/// When its turn comes, a file goes from one stage to the next, whatever else is under
/// way: after its body its description, after its description the binding, and after the
/// binding the acknowledgement.
pub proof fn lemma_file_goes_on(s: Router, entry: PendingDownstream, digest: Seq<u8>)
    requires
        s.wf(),
        entry.wf(),
        entry.admin_op == loam_admin_wire::OP_PUT_FILE,
        digest.len() == 32,
    ensures
        ({
            let idx = entry.putfile_idx as int;
            let slot = s.putfiles[idx];
            let id = admin_router_state::object_id(digest);
            let (t, act) = s.body_answered(loam_body_wire::put_resp_frame(digest));
            s.body.len() > 0 && s.body[0] == entry && s.has_room(Stream::Object) ==> {
                &&& act matches Act::Forward { stream, frame, entry: with }
                &&& stream == Stream::Object
                &&& frame == loam_object_wire::put_frame(
                    loam_object_wire::OP_OBJ_PUT,
                    id,
                    slot.ns_root,
                    slot.path,
                    id,
                    slot.body_len as u64,
                    slot.revision,
                    loam_object_wire::DATA_CLASS_LOCAL,
                    1,
                    None,
                )
                &&& is_for(with, Purpose::File(idx))
                &&& t.putfiles[idx] == PutFile { digest, stage: admin_router_state::PUTFILE_STAGE_OBJECT, ..slot }
            }
        }),
        ({
            let idx = entry.putfile_idx as int;
            let slot = s.putfiles[idx];
            let (t, act) = s.obj_answered(loam_object_wire::OP_OBJ_PUT);
            s.obj.len() > 0 && s.obj[0] == entry && s.has_room(Stream::Namespace) ==> {
                &&& act matches Act::Forward { stream, frame, entry: with }
                &&& stream == Stream::Namespace
                &&& frame == loam_wire::bind_frame(
                    slot.ns_root,
                    slot.path,
                    admin_router_state::object_id(slot.digest),
                    slot.kind,
                    slot.revision,
                )
                &&& is_for(with, Purpose::File(idx))
                &&& t.putfiles[idx] == PutFile { stage: admin_router_state::PUTFILE_STAGE_BIND, ..slot }
            }
        }),
        ({
            let idx = entry.putfile_idx as int;
            let (t, act) = s.ns_answered(seq![loam_wire::OP_BIND]);
            s.ns.len() > 0 && s.ns[0] == entry ==> {
                &&& act == Act::Reply {
                    frame: loam_admin_wire::digest_ack_frame(
                        loam_admin_wire::OP_PUT_FILE,
                        entry.correlation_id,
                        loam_admin_wire::STATUS_OK,
                        Some(s.putfiles[idx].digest),
                    ),
                }
                &&& !t.putfiles[idx].in_use
            }
        }),
{
    let resp = loam_body_wire::put_resp_frame(digest);
    loam_body_wire::lemma_put_resp_round_trip(digest, Seq::empty());
    assert(resp + Seq::<u8>::empty() =~= resp);
}

} // verus!
