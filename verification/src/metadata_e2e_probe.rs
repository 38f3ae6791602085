//! A probe of the metadata plane: it proposes a bind until one is committed, and looks
//! whether what was committed is that bind.
use crate::bytes;
use crate::loam_wire;
use crate::text;
use vstd::prelude::*;

verus! {

/// The revision of the bind.
pub const PROBE_REVISION: u64 = 1;

/// The namespace root of the bind.
pub open spec fn probe_root() -> Seq<u8> {
    text::ascii("acme")
}

/// The path of the bind.
pub open spec fn probe_path() -> Seq<u8> {
    text::ascii("/probe/replicated-bind")
}

/// The object of the bind.
pub open spec fn probe_object() -> Seq<u8> {
    text::ascii("probe-object-1")
}

/// The bind that is proposed.
pub open spec fn probe_bind() -> Seq<u8> {
    loam_wire::bind_frame(probe_root(), probe_path(), probe_object(), 0, PROBE_REVISION)
}

/// These bytes decode to the bind that is proposed; its kind does not matter.
pub open spec fn decodes_to_probe(inner: Seq<u8>) -> bool {
    match loam_wire::bind_parse(inner) {
        Ok((root, path, id, kind, revision)) => root == probe_root() && path == probe_path() && id == probe_object()
            && revision == PROBE_REVISION,
        Err(_) => false,
    }
}

/// Encode the bind that is proposed.
pub fn encode_probe_bind() -> (r: Vec<u8>)
    ensures
        r@ == probe_bind(),
{
    proof {
        reveal_strlit("acme");
        reveal_strlit("/probe/replicated-bind");
        reveal_strlit("probe-object-1");
    }
    let mut buf: [u8; 256] = [0u8; 256];
    proof {
        bytes::lemma_written_front(buf@, probe_bind());
    }
    match loam_wire::encode_bind(
        &mut buf,
        text::bytes_of("acme"),
        text::bytes_of("/probe/replicated-bind"),
        text::bytes_of("probe-object-1"),
        0,
        PROBE_REVISION,
    ) {
        Ok(n) => bytes::front(buf.as_slice(), n),
        Err(_) => Vec::new(),
    }
}

/// Whether these bytes decode to the bind that is proposed.
pub fn is_probe_bind(inner: &[u8]) -> (r: bool)
    ensures
        r == decodes_to_probe(inner@),
{
    proof {
        reveal_strlit("acme");
        reveal_strlit("/probe/replicated-bind");
        reveal_strlit("probe-object-1");
    }
    match loam_wire::decode_bind(inner) {
        Ok(b) => bytes::bytes_equal(b.namespace_root, text::bytes_of("acme")) && bytes::bytes_equal(
            b.path,
            text::bytes_of("/probe/replicated-bind"),
        ) && bytes::bytes_equal(b.object_id, text::bytes_of("probe-object-1")) && b.revision == PROBE_REVISION,
        Err(_) => false,
    }
}

/// How it went.
#[derive(Debug, Clone, Copy, PartialEq, Eq, Structural)]
pub enum Verdict {
    Pass,
    Mismatch,
    Timeout,
}

/// Where the probe is.
#[derive(Debug, Clone, Copy, PartialEq, Eq, Structural)]
pub enum Phase {
    /// The group is to settle first.
    Wait,
    /// The bind was proposed.
    Await,
    Done { verdict: Verdict },
}

/// A record of the plane.
pub enum PlaneRecord<'a> {
    /// A marker, or a refusal: the probe goes on waiting.
    Marker,
    /// A committed record, with what it carries and whether it was witnessed.
    Committed { inner: &'a [u8], witnessed: bool },
    /// Something else.
    Other,
}

/// What the probe does in a step.
#[derive(Debug, Clone, Copy, PartialEq, Eq, Structural)]
pub enum ProbeStep {
    Nothing,
    /// Propose the bind.
    Propose,
    /// Read the records that have come, and judge them.
    Read,
    /// Say how it went.
    Report { verdict: Verdict },
}

/// The probe.
#[derive(Debug, Clone, Copy, PartialEq, Eq, Structural)]
pub struct ModuleState {
    pub phase: Phase,
    pub ticks: u32,
}

impl ModuleState {
    /// A step begins.
    pub open spec fn stepped(self) -> (ModuleState, ProbeStep) {
        let t = ModuleState { ticks: self.ticks.wrapping_add(1), ..self };
        match t.phase {
            Phase::Wait => if t.ticks < 50 {
                (t, ProbeStep::Nothing)
            } else {
                (ModuleState { phase: Phase::Await, ..t }, ProbeStep::Propose)
            },
            Phase::Await => if t.ticks % 500 == 0 && t.ticks < 29_500 {
                (t, ProbeStep::Propose)
            } else {
                (t, ProbeStep::Read)
            },
            Phase::Done { verdict } => if t.ticks % 512 == 0 {
                (t, ProbeStep::Report { verdict })
            } else {
                (t, ProbeStep::Nothing)
            },
        }
    }

    /// The records are read, without one that decides: patience ends some day.
    pub open spec fn drained(self) -> ModuleState {
        if self.ticks > 30_000 {
            ModuleState { phase: Phase::Done { verdict: Verdict::Timeout }, ..self }
        } else {
            self
        }
    }

    pub fn new() -> (r: Self)
        ensures
            r == (ModuleState { phase: Phase::Wait, ticks: 0 }),
    {
        ModuleState { phase: Phase::Wait, ticks: 0 }
    }

    /// A step begins.
    pub fn step(&mut self) -> (r: ProbeStep)
        ensures
            (*final(self), r) == old(self).stepped(),
    {
        self.ticks = self.ticks.wrapping_add(1);
        match self.phase {
            Phase::Wait => {
                if self.ticks < 50 {
                    return ProbeStep::Nothing;
                }
                self.phase = Phase::Await;
                ProbeStep::Propose
            },
            Phase::Await => if self.ticks % 500 == 0 && self.ticks < 29_500 {
                ProbeStep::Propose
            } else {
                ProbeStep::Read
            },
            Phase::Done { verdict } => if self.ticks % 512 == 0 {
                ProbeStep::Report { verdict }
            } else {
                ProbeStep::Nothing
            },
        }
    }

    /// Judge a record. Returns whether it decides.
    pub fn judge(&mut self, record: PlaneRecord<'_>) -> (r: bool)
        ensures
            r == !(record is Marker),
            *final(self) == (match record {
                PlaneRecord::Marker => *old(self),
                PlaneRecord::Committed { inner, witnessed } => ModuleState {
                    phase: Phase::Done {
                        verdict: if decodes_to_probe(inner@) && witnessed {
                            Verdict::Pass
                        } else {
                            Verdict::Mismatch
                        },
                    },
                    ..*old(self)
                },
                PlaneRecord::Other => ModuleState { phase: Phase::Done { verdict: Verdict::Mismatch }, ..*old(self) },
            }),
    {
        match record {
            PlaneRecord::Marker => false,
            PlaneRecord::Committed { inner, witnessed } => {
                let verdict: Verdict = if is_probe_bind(inner) && witnessed {
                    Verdict::Pass
                } else {
                    Verdict::Mismatch
                };
                self.phase = Phase::Done { verdict };
                true
            },
            PlaneRecord::Other => {
                self.phase = Phase::Done { verdict: Verdict::Mismatch };
                true
            },
        }
    }

    /// All records are read, and none decided.
    pub fn drain_done(&mut self)
        ensures
            *final(self) == old(self).drained(),
    {
        if self.ticks > 30_000 {
            self.phase = Phase::Done { verdict: Verdict::Timeout };
        }
    }
}

/// What is said of a verdict.
pub fn verdict_line(verdict: Verdict) -> (r: &'static str)
    ensures
        r@ == (match verdict {
            Verdict::Pass => "[meta_e2e] PASS"@,
            Verdict::Mismatch => "[meta_e2e] FAIL mismatch"@,
            Verdict::Timeout => "[meta_e2e] FAIL timeout"@,
        }),
{
    match verdict {
        Verdict::Pass => "[meta_e2e] PASS",
        Verdict::Mismatch => "[meta_e2e] FAIL mismatch",
        Verdict::Timeout => "[meta_e2e] FAIL timeout",
    }
}

/// The bind that is proposed is recognised when it comes back.
pub proof fn lemma_bind_is_recognised()
    ensures
        decodes_to_probe(probe_bind()),
{
    reveal_strlit("acme");
    reveal_strlit("/probe/replicated-bind");
    reveal_strlit("probe-object-1");
    loam_wire::lemma_bind_round_trip(
        probe_root(),
        probe_path(),
        probe_object(),
        0,
        PROBE_REVISION,
        Seq::empty(),
    );
    assert(probe_bind() + Seq::<u8>::empty() =~= probe_bind());
}

/// A verdict stays, and is said again and again.
pub proof fn lemma_verdict_stays(p: ModuleState, verdict: Verdict)
    requires
        p.phase == (Phase::Done { verdict }),
    ensures
        p.stepped().0.phase == p.phase,
        p.ticks.wrapping_add(1) % 512 == 0 <==> p.stepped().1 == (ProbeStep::Report { verdict }),
{
}

} // verus!
