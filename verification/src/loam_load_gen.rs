//! A source of load for the metadata plane.
//!
//! It offers binds, each with a path and a number of its own, in batches. What is offered
//! does not depend on how fast it is taken: a record that the channel refuses is offered
//! again in the next batch.
use crate::bytes;
use crate::loam_wire;
use crate::text;
use vstd::prelude::*;

verus! {

/// How many records one step offers at most.
pub const MAX_OPS_PER_STEP: u32 = 8;

/// Binds are offered as proposals.
pub const PLANE_METADATA: u32 = 0;

/// Binds are offered as they are.
pub const PLANE_NAMESPACE: u32 = 1;

/// A source of load.
#[derive(Debug, Clone, Copy, PartialEq, Eq, Structural)]
pub struct ModuleState {
    pub ticks: u32,
    /// Steps until the next batch.
    pub period_left: u32,
    /// The number of the next record.
    pub seq: u32,
    pub emitted: u32,
    pub refused: u32,
    pub inject_period: u32,
    pub batch_per_step: u32,
    /// How many records are to be offered; 0 for as many as there are steps.
    pub total: u32,
    pub report_ticks: u32,
    pub plane: u32,
    pub last_report_tick: u32,
    pub window_offered: u32,
    pub window_emitted: u32,
    /// How many more records this step may offer.
    pub budget: u32,
}

/// A record that is offered.
pub enum Offer {
    /// A bind as it is.
    Bind { bind: Vec<u8> },
    /// A bind that is proposed under this number.
    Propose { correlation_id: u32, bind: Vec<u8> },
}

/// A record that is offered.
pub ghost enum Record {
    Bind { bind: Seq<u8> },
    Propose { correlation_id: u32, bind: Seq<u8> },
}

impl Offer {
    pub open spec fn model(self) -> Record {
        match self {
            Offer::Bind { bind } => Record::Bind { bind: bind@ },
            Offer::Propose { correlation_id, bind } => Record::Propose { correlation_id, bind: bind@ },
        }
    }
}

/// The path of a record.
pub open spec fn path_of(seq: u32) -> Seq<u8> {
    text::ascii("/p") + text::hex(seq, 6)
}

/// The id of the object of a record.
pub open spec fn id_of(seq: u32) -> Seq<u8> {
    text::ascii("o") + text::hex(seq, 6)
}

/// The bind of a record.
pub open spec fn bind_of(seq: u32) -> Seq<u8> {
    loam_wire::bind_frame(text::ascii("acme"), path_of(seq), id_of(seq), 0, (seq + 1) as u64)
}

/// The record with this number, for a plane.
pub open spec fn record_at(plane: u32, seq: u32) -> Record {
    if plane == PLANE_NAMESPACE {
        Record::Bind { bind: bind_of(seq) }
    } else {
        Record::Propose { correlation_id: seq.wrapping_add(1), bind: bind_of(seq) }
    }
}

/// What happens to a source of load.
pub ghost enum Happening {
    /// A step begins.
    Step,
    /// The channel is asked to take the next record, if there is one, and does or refuses.
    Offered { taken: bool },
}

impl ModuleState {
    /// The parameters make sense.
    pub open spec fn wf(self) -> bool {
        self.inject_period >= 1 && self.report_ticks >= 1
    }

    /// All records that were asked for are out.
    pub open spec fn is_finished(self) -> bool {
        self.total != 0 && self.emitted >= self.total
    }

    /// What was tried and what was taken, as a line: the length of the window, the
    /// attempts and the records taken in it, and the records taken and refused since the
    /// start.
    pub open spec fn report_line(self) -> Seq<u8> {
        text::ascii("[loam-lg] w=") + text::hex8(self.ticks.wrapping_sub(self.last_report_tick)) + text::ascii(" o=")
            + text::hex8(self.window_offered) + text::ascii(" e=") + text::hex8(self.window_emitted) + text::ascii(
            " E=",
        ) + text::hex8(self.emitted) + text::ascii(" R=") + text::hex8(self.refused)
    }

    /// A report is due.
    pub open spec fn report_due(self) -> bool {
        self.ticks.wrapping_sub(self.last_report_tick) >= self.report_ticks
    }

    /// A window begins.
    pub open spec fn reported(self) -> ModuleState {
        ModuleState { last_report_tick: self.ticks, window_offered: 0, window_emitted: 0, ..self }
    }

    /// Whether this step has a batch is decided.
    pub open spec fn paced(self) -> ModuleState {
        if self.period_left > 0 {
            ModuleState { period_left: (self.period_left - 1) as u32, budget: 0, ..self }
        } else {
            ModuleState {
                period_left: (self.inject_period - 1) as u32,
                budget: if self.batch_per_step > MAX_OPS_PER_STEP {
                    MAX_OPS_PER_STEP
                } else {
                    self.batch_per_step
                },
                ..self
            }
        }
    }

    /// A step begins.
    pub open spec fn stepped(self) -> ModuleState {
        let t = ModuleState { ticks: self.ticks.wrapping_add(1), ..self };
        if t.report_due() {
            t.reported().paced()
        } else {
            t.paced()
        }
    }

    /// The next record of the batch.
    pub open spec fn offer(self) -> Option<Record> {
        if self.budget == 0 || self.is_finished() {
            None
        } else {
            Some(record_at(self.plane, self.seq))
        }
    }

    /// The channel took the record, or refused it: then the batch is over, and the same
    /// record is offered again.
    pub open spec fn offered(self, taken: bool) -> ModuleState {
        let t = ModuleState { window_offered: self.window_offered.wrapping_add(1), ..self };
        if taken {
            ModuleState {
                seq: t.seq.wrapping_add(1),
                emitted: t.emitted.wrapping_add(1),
                window_emitted: t.window_emitted.wrapping_add(1),
                budget: (t.budget - 1) as u32,
                ..t
            }
        } else {
            ModuleState { refused: t.refused.wrapping_add(1), budget: 0, ..t }
        }
    }

    /// A run: the source after it, and the records that the channel took.
    pub open spec fn run(self, events: Seq<Happening>) -> (ModuleState, Seq<Record>)
        decreases events.len(),
    {
        if events.len() == 0 {
            (self, Seq::empty())
        } else {
            let (s, got) = self.run(events.drop_last());
            match events.last() {
                Happening::Step => (s.stepped(), got),
                Happening::Offered { taken } => match s.offer() {
                    None => (s, got),
                    Some(record) => (
                        s.offered(taken),
                        if taken {
                            got.push(record)
                        } else {
                            got
                        },
                    ),
                },
            }
        }
    }

    pub fn new(
        inject_period: u32,
        batch_per_step: u32,
        total: u32,
        warmup_ticks: u32,
        report_ticks: u32,
        plane: u32,
    ) -> (r: Self)
        ensures
            r.wf(),
            r == (ModuleState {
                ticks: 0,
                period_left: warmup_ticks,
                seq: 0,
                emitted: 0,
                refused: 0,
                inject_period: if inject_period == 0 {
                    1
                } else {
                    inject_period
                },
                batch_per_step,
                total,
                report_ticks: if report_ticks == 0 {
                    1000
                } else {
                    report_ticks
                },
                plane,
                last_report_tick: 0,
                window_offered: 0,
                window_emitted: 0,
                budget: 0,
            }),
    {
        ModuleState {
            ticks: 0,
            period_left: warmup_ticks,
            seq: 0,
            emitted: 0,
            refused: 0,
            inject_period: if inject_period == 0 {
                1
            } else {
                inject_period
            },
            batch_per_step,
            total,
            report_ticks: if report_ticks == 0 {
                1000
            } else {
                report_ticks
            },
            plane,
            last_report_tick: 0,
            window_offered: 0,
            window_emitted: 0,
            budget: 0,
        }
    }

    fn emit_report(&self) -> (r: Vec<u8>)
        ensures
            r@ == self.report_line(),
    {
        proof {
            reveal_strlit("[loam-lg] w=");
            reveal_strlit(" o=");
            reveal_strlit(" e=");
            reveal_strlit(" E=");
            reveal_strlit(" R=");
        }
        let mut line: Vec<u8> = Vec::new();
        text::push_tag(&mut line, "[loam-lg] w=");
        text::push_hex(&mut line, self.ticks.wrapping_sub(self.last_report_tick), 8);
        text::push_tag(&mut line, " o=");
        text::push_hex(&mut line, self.window_offered, 8);
        text::push_tag(&mut line, " e=");
        text::push_hex(&mut line, self.window_emitted, 8);
        text::push_tag(&mut line, " E=");
        text::push_hex(&mut line, self.emitted, 8);
        text::push_tag(&mut line, " R=");
        text::push_hex(&mut line, self.refused, 8);
        assert(line@ =~= self.report_line());
        line
    }

    /// A step begins. Returns the line to log, if a report is due.
    pub fn step(&mut self) -> (r: Option<Vec<u8>>)
        requires
            old(self).wf(),
        ensures
            final(self).wf(),
            *final(self) == old(self).stepped(),
            ({
                let t = ModuleState { ticks: old(self).ticks.wrapping_add(1), ..*old(self) };
                match r {
                    Some(line) => t.report_due() && line@ == t.report_line(),
                    None => !t.report_due(),
                }
            }),
    {
        self.ticks = self.ticks.wrapping_add(1);
        let mut line: Option<Vec<u8>> = None;
        if self.ticks.wrapping_sub(self.last_report_tick) >= self.report_ticks {
            line = Some(self.emit_report());
            self.last_report_tick = self.ticks;
            self.window_offered = 0;
            self.window_emitted = 0;
        }
        if self.period_left > 0 {
            self.period_left = self.period_left - 1;
            self.budget = 0;
        } else {
            self.period_left = self.inject_period - 1;
            self.budget = if self.batch_per_step > MAX_OPS_PER_STEP {
                MAX_OPS_PER_STEP
            } else {
                self.batch_per_step
            };
        }
        line
    }

    /// The next record of the batch, if there is one.
    pub fn next_offer(&self) -> (r: Option<Offer>)
        requires
            self.wf(),
        ensures
            match r {
                Some(o) => self.offer() == Some(o.model()),
                None => self.offer() is None,
            },
    {
        if self.budget == 0 || (self.total != 0 && self.emitted >= self.total) {
            return None;
        }
        let bind: Vec<u8> = encode_record(self.seq);
        if self.plane == PLANE_NAMESPACE {
            Some(Offer::Bind { bind })
        } else {
            Some(Offer::Propose { correlation_id: self.seq.wrapping_add(1), bind })
        }
    }

    /// The channel took the record that was offered, or refused it.
    pub fn offer_done(&mut self, taken: bool)
        requires
            old(self).wf(),
            old(self).offer() is Some,
        ensures
            final(self).wf(),
            *final(self) == old(self).offered(taken),
    {
        self.window_offered = self.window_offered.wrapping_add(1);
        if taken {
            self.seq = self.seq.wrapping_add(1);
            self.emitted = self.emitted.wrapping_add(1);
            self.window_emitted = self.window_emitted.wrapping_add(1);
            self.budget = self.budget - 1;
        } else {
            self.refused = self.refused.wrapping_add(1);
            self.budget = 0;
        }
    }
}

fn encode_record(seq: u32) -> (r: Vec<u8>)
    ensures
        r@ == bind_of(seq),
{
    proof {
        reveal_strlit("/p");
        reveal_strlit("o");
        reveal_strlit("acme");
        text::lemma_hex_len(seq, 6);
    }
    let mut path: Vec<u8> = Vec::new();
    text::push_tag(&mut path, "/p");
    text::push_hex(&mut path, seq, 6);
    assert(path@ =~= path_of(seq));
    let mut id: Vec<u8> = Vec::new();
    text::push_tag(&mut id, "o");
    text::push_hex(&mut id, seq, 6);
    assert(id@ =~= id_of(seq));
    let mut buf: [u8; 64] = [0u8; 64];
    proof {
        bytes::lemma_written_front(buf@, bind_of(seq));
    }
    match loam_wire::encode_bind(
        &mut buf,
        text::bytes_of("acme"),
        path.as_slice(),
        id.as_slice(),
        0,
        seq as u64 + 1,
    ) {
        Ok(n) => bytes::front(buf.as_slice(), n),
        Err(_) => Vec::new(),
    }
}

/// Records differ in their paths and in the numbers under which they are proposed, as
/// long as six digits are enough; the number is never 0.
pub proof fn lemma_records_differ(a: u32, b: u32)
    requires
        a != b,
        a < 0x100_0000,
        b < 0x100_0000,
    ensures
        path_of(a) != path_of(b),
        id_of(a) != id_of(b),
        a.wrapping_add(1) != b.wrapping_add(1),
        a.wrapping_add(1) != 0,
{
    reveal_with_fuel(text::hex_weight, 7);
    text::lemma_hex_differs(a, b, 6);
    text::lemma_hex_len(a, 6);
    text::lemma_hex_len(b, 6);
    assert(path_of(a).skip(text::ascii("/p").len() as int) =~= text::hex(a, 6));
    assert(path_of(b).skip(text::ascii("/p").len() as int) =~= text::hex(b, 6));
    assert(id_of(a).skip(text::ascii("o").len() as int) =~= text::hex(a, 6));
    assert(id_of(b).skip(text::ascii("o").len() as int) =~= text::hex(b, 6));
}

/// Over a whole run the records that were taken carry the numbers in order, from the one
/// that stood first: none is skipped and none repeated, whatever was refused and however
/// the steps fell. No more are taken than were asked for.
pub proof fn lemma_run_counts_up(g: ModuleState, events: Seq<Happening>)
    requires
        g.wf(),
        g.emitted == 0,
    ensures
        ({
            let (s, got) = g.run(events);
            &&& s.wf()
            &&& forall|i: int|
                0 <= i < got.len() ==> #[trigger] got[i] == record_at(g.plane, ((g.seq + i) % 0x1_0000_0000) as u32)
            &&& s.seq == (g.seq + got.len()) % 0x1_0000_0000
            &&& g.total != 0 ==> got.len() == s.emitted && got.len() <= g.total
        }),
    decreases events.len(),
{
    lemma_run_keeps_parameters(g, events);
    if events.len() > 0 {
        lemma_run_counts_up(g, events.drop_last());
        lemma_run_keeps_parameters(g, events.drop_last());
    }
}

proof fn lemma_run_keeps_parameters(g: ModuleState, events: Seq<Happening>)
    requires
        g.wf(),
    ensures
        ({
            let s = g.run(events).0;
            s.wf() && s.plane == g.plane && s.total == g.total && s.batch_per_step == g.batch_per_step
        }),
    decreases events.len(),
{
    if events.len() > 0 {
        lemma_run_keeps_parameters(g, events.drop_last());
    }
}

/// In one step no more records are taken than the batch has and than a step may take, and
/// none after one was refused: a refusal ends the step, is counted, and changes neither
/// the number of the next record nor how many were taken.
pub proof fn lemma_step_is_bounded(g: ModuleState, events: Seq<Happening>)
    requires
        g.wf(),
        forall|i: int| 0 <= i < events.len() ==> (#[trigger] events[i]) is Offered,
    ensures
        ({
            let (s, got) = g.stepped().run(events);
            &&& got.len() + s.budget <= g.batch_per_step
            &&& got.len() + s.budget <= MAX_OPS_PER_STEP
            &&& forall|i: int|
                0 <= i < events.len() && #[trigger] events[i] == (Happening::Offered { taken: false }) ==> s.offer()
                    is None
        }),
        g.offer() is Some ==> {
            let s = g.offered(false);
            &&& s.offer() is None
            &&& s.seq == g.seq
            &&& s.emitted == g.emitted
            &&& s.refused == g.refused.wrapping_add(1)
        },
    decreases events.len(),
{
    if events.len() > 0 {
        let rest = events.drop_last();
        assert forall|i: int| 0 <= i < rest.len() implies (#[trigger] rest[i]) is Offered by {
            assert(rest[i] == events[i]);
        }
        lemma_step_is_bounded(g, rest);
        lemma_run_keeps_parameters(g.stepped(), rest);
        let s = g.stepped().run(rest).0;
        assert(events.last() == events[events.len() - 1]);
        assert forall|i: int|
            0 <= i < events.len() && #[trigger] events[i] == (Happening::Offered { taken: false }) implies g.stepped().run(
            events,
        ).0.offer() is None by {
            if i < rest.len() {
                assert(rest[i] == events[i]);
            }
        }
    }
}

/// No record is lost: one that was refused is the next that is offered, in a later step.
pub proof fn lemma_refused_is_offered_again(g: ModuleState)
    requires
        g.wf(),
        g.offer() is Some,
    ensures
        g.offered(false).seq == g.seq,
        g.offered(false).offer() is None,
        g.offered(false).stepped().budget > 0 ==> g.offered(false).stepped().offer() == g.offer(),
{
}

/// No more records are taken than were asked for, and no more in one step than it may
/// offer.
pub proof fn lemma_load_is_bounded(g: ModuleState)
    requires
        g.wf(),
    ensures
        g.stepped().budget <= MAX_OPS_PER_STEP,
        g.offer() is Some ==> g.offered(true).budget < g.budget,
        g.offer() is Some && g.total != 0 ==> g.emitted < g.total && g.offered(true).emitted <= g.total,
{
}

} // verus!
