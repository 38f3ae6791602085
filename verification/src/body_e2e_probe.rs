//! A probe of a body store: it stores a body, asks for it, and compares what comes.
use crate::bytes;
use crate::loam_body_wire;
use crate::text;
use vstd::prelude::*;

verus! {

/// Where the probe is.
#[derive(Debug, Clone, Copy, PartialEq, Eq, Structural)]
pub enum Phase {
    /// The body is to be sent.
    Put,
    /// Its digest is to come.
    AwaitDigest,
    /// The body is to come.
    AwaitBody,
    Done,
}

/// What the probe does.
pub enum ProbeStep {
    Nothing,
    /// Send a request.
    Send { frame: Vec<u8> },
    /// Say how it went.
    Log { line: &'static str },
}

/// What the probe does.
pub ghost enum Step {
    Nothing,
    Send { frame: Seq<u8> },
    Log { line: Seq<char> },
}

impl ProbeStep {
    pub open spec fn model(self) -> Step {
        match self {
            ProbeStep::Nothing => Step::Nothing,
            ProbeStep::Send { frame } => Step::Send { frame: frame@ },
            ProbeStep::Log { line } => Step::Log { line: line@ },
        }
    }
}

/// The body that is stored.
pub open spec fn probe_body() -> Seq<u8> {
    text::ascii("loam disk-backed body e2e")
}

/// What the probe does in a phase, with what has come: nothing where nothing has.
pub open spec fn probed(phase: Phase, resp: Seq<u8>) -> (Phase, Step) {
    match phase {
        Phase::Put => (Phase::AwaitDigest, Step::Send { frame: loam_body_wire::put_req_frame(probe_body()) }),
        Phase::AwaitDigest => if resp.len() == 0 {
            (phase, Step::Nothing)
        } else {
            match loam_body_wire::put_resp_parse(resp) {
                Ok(digest) => (Phase::AwaitBody, Step::Send { frame: loam_body_wire::get_req_frame(digest) }),
                Err(_) => (Phase::Done, Step::Log { line: "[body_e2e] FAIL put-resp"@ }),
            }
        },
        Phase::AwaitBody => if resp.len() == 0 {
            (phase, Step::Nothing)
        } else if loam_body_wire::get_resp_parse(resp) == Ok::<Seq<u8>, loam_body_wire::WireError>(probe_body()) {
            (Phase::Done, Step::Log { line: "[body_e2e] PASS"@ })
        } else {
            (Phase::Done, Step::Log { line: "[body_e2e] FAIL body"@ })
        },
        Phase::Done => (phase, Step::Nothing),
    }
}

/// The probe.
#[derive(Debug, Clone, Copy, PartialEq, Eq, Structural)]
pub struct ModuleState {
    pub phase: Phase,
}

impl ModuleState {
    pub fn new() -> (r: Self)
        ensures
            r == (ModuleState { phase: Phase::Put }),
    {
        ModuleState { phase: Phase::Put }
    }

    /// A step of the probe, with what has come. Returns what to do.
    pub fn module_step(&mut self, resp: &[u8]) -> (r: ProbeStep)
        ensures
            (final(self).phase, r.model()) == probed(old(self).phase, resp@),
    {
        let (phase, todo): (Phase, ProbeStep) = step(self.phase, resp);
        self.phase = phase;
        todo
    }
}

fn step(phase: Phase, resp: &[u8]) -> (r: (Phase, ProbeStep))
    ensures
        (r.0, r.1.model()) == probed(phase, resp@),
{
    proof {
        reveal_strlit("loam disk-backed body e2e");
    }
    let body: &[u8] = text::bytes_of("loam disk-backed body e2e");
    match phase {
        Phase::Put => {
            let mut buf: [u8; 64] = [0u8; 64];
            proof {
                bytes::lemma_written_front(buf@, loam_body_wire::put_req_frame(probe_body()));
            }
            let frame: Vec<u8> = match loam_body_wire::encode_put_req(&mut buf, body) {
                Ok(n) => bytes::front(buf.as_slice(), n),
                Err(_) => Vec::new(),
            };
            (Phase::AwaitDigest, ProbeStep::Send { frame })
        },
        Phase::AwaitDigest => {
            if resp.len() == 0 {
                return (phase, ProbeStep::Nothing);
            }
            match loam_body_wire::decode_put_resp(resp) {
                Ok(d) => {
                    assert(d@.subrange(0, 32) =~= d@);
                    let digest: [u8; 32] = loam_body_wire::digest_at(d, 0);
                    let mut buf: [u8; 64] = [0u8; 64];
                    proof {
                        bytes::lemma_written_front(buf@, loam_body_wire::get_req_frame(digest@));
                    }
                    let frame: Vec<u8> = match loam_body_wire::encode_get_req(&mut buf, &digest) {
                        Ok(n) => bytes::front(buf.as_slice(), n),
                        Err(_) => Vec::new(),
                    };
                    (Phase::AwaitBody, ProbeStep::Send { frame })
                },
                Err(_) => (Phase::Done, ProbeStep::Log { line: "[body_e2e] FAIL put-resp" }),
            }
        },
        Phase::AwaitBody => {
            if resp.len() == 0 {
                return (phase, ProbeStep::Nothing);
            }
            let good: bool = match loam_body_wire::decode_get_resp(resp) {
                Ok(got) => bytes::bytes_equal(got, body),
                Err(_) => false,
            };
            if good {
                (Phase::Done, ProbeStep::Log { line: "[body_e2e] PASS" })
            } else {
                (Phase::Done, ProbeStep::Log { line: "[body_e2e] FAIL body" })
            }
        },
        Phase::Done => (phase, ProbeStep::Nothing),
    }
}

/// With a store that gives back what was stored, under whatever digest, the probe passes;
/// with one that gives back other bytes it does not.
pub proof fn lemma_probe_tells(digest: Seq<u8>, body: Seq<u8>)
    requires
        digest.len() == 32,
        body.len() <= loam_body_wire::MAX_BODY,
    ensures
        ({
            let (p1, s1) = probed(Phase::Put, Seq::empty());
            let (p2, s2) = probed(p1, loam_body_wire::put_resp_frame(digest));
            let (p3, s3) = probed(p2, loam_body_wire::get_resp_frame(body));
            &&& s1 == Step::Send { frame: loam_body_wire::put_req_frame(probe_body()) }
            &&& s2 == Step::Send { frame: loam_body_wire::get_req_frame(digest) }
            &&& p3 is Done
            &&& s3 == Step::Log {
                line: if body == probe_body() {
                    "[body_e2e] PASS"@
                } else {
                    "[body_e2e] FAIL body"@
                },
            }
        }),
{
    let a = loam_body_wire::put_resp_frame(digest);
    loam_body_wire::lemma_put_resp_round_trip(digest, Seq::empty());
    assert(a + Seq::<u8>::empty() =~= a);
    let b = loam_body_wire::get_resp_frame(body);
    loam_body_wire::lemma_get_resp_round_trip(body, Seq::empty());
    assert(b + Seq::<u8>::empty() =~= b);
}

} // verus!
