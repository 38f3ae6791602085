//! A count of what the metadata plane resolved.
//!
//! Records are counted, not bytes: a committed record carries a payload of any length.
//! Refusals are counted apart, so that a plane that refuses everything does not look
//! like one that commits everything.
use crate::bytes;
use crate::text;
use vstd::prelude::*;

verus! {

/// How much is read at a time.
pub const READ_BUF: usize = 512;

/// How much of a record that is not whole yet is kept.
pub const ASM: usize = 8192;

/// How often one step reads.
pub const MAX_DRAIN_PER_STEP: u32 = 32;

/// The input is records of the metadata plane.
pub const STREAM_DECISIONS: u32 = 0;

/// The input is one byte for each operation.
pub const STREAM_ACKS: u32 = 1;

/// An operation was refused.
pub const ACK_REFUSED: u8 = 0xFF;

/// An operation was refused for now.
pub const ACK_NOT_READY: u8 = 0xFE;

/// What a record says.
#[derive(Debug, Clone, Copy, PartialEq, Eq, Structural)]
pub enum Resolution {
    Committed,
    Aborted,
    /// It is no answer to an operation.
    Marker,
}

/// What stands at the front of the input.
#[derive(Debug, Clone, Copy, PartialEq, Eq, Structural)]
pub enum Framed {
    /// A whole record.
    Whole { len: usize, resolution: Resolution },
    /// The start of a record.
    Partial,
    /// No record.
    Foreign,
}

/// What was counted.
#[derive(Debug, Clone, Copy, PartialEq, Eq, Structural)]
pub struct Tally {
    pub window_committed: u32,
    pub window_aborted: u32,
    pub total_committed: u32,
    pub total_aborted: u32,
    /// Bytes that belong to no record.
    pub unparsed: u32,
}

impl Tally {
    pub open spec fn committed(self) -> Tally {
        Tally {
            window_committed: self.window_committed.wrapping_add(1),
            total_committed: self.total_committed.wrapping_add(1),
            ..self
        }
    }

    pub open spec fn aborted(self) -> Tally {
        Tally {
            window_aborted: self.window_aborted.wrapping_add(1),
            total_aborted: self.total_aborted.wrapping_add(1),
            ..self
        }
    }

    /// An acknowledgement is counted.
    pub open spec fn acked(self, ack: u8) -> Tally {
        if ack == ACK_REFUSED || ack == ACK_NOT_READY {
            self.aborted()
        } else {
            self.committed()
        }
    }

    /// These acknowledgements are counted.
    pub open spec fn all_acked(self, acks: Seq<u8>) -> Tally
        decreases acks.len(),
    {
        if acks.len() == 0 {
            self
        } else {
            self.all_acked(acks.drop_last()).acked(acks.last())
        }
    }

    /// A record is counted.
    pub open spec fn resolved(self, resolution: Resolution) -> Tally {
        match resolution {
            Resolution::Committed => self.committed(),
            Resolution::Aborted => self.aborted(),
            Resolution::Marker => self,
        }
    }

    /// A window begins.
    pub open spec fn next_window(self) -> Tally {
        Tally { window_committed: 0, window_aborted: 0, ..self }
    }

    /// The counts as a line: the length of the window, what was committed and refused in
    /// it, and since the start; and what was no record, if there was any.
    pub open spec fn line(self, window: u32) -> Seq<u8> {
        let counts = text::ascii("[loam-tp] w=") + text::hex8(window) + text::ascii(" c=") + text::hex8(
            self.window_committed,
        ) + text::ascii(" a=") + text::hex8(self.window_aborted) + text::ascii(" C=") + text::hex8(
            self.total_committed,
        ) + text::ascii(" A=") + text::hex8(self.total_aborted);
        if self.unparsed != 0 {
            counts + text::ascii(" bad=") + text::hex8(self.unparsed)
        } else {
            counts
        }
    }

    fn commit(&mut self)
        ensures
            *final(self) == old(self).committed(),
    {
        self.window_committed = self.window_committed.wrapping_add(1);
        self.total_committed = self.total_committed.wrapping_add(1);
    }

    fn abort(&mut self)
        ensures
            *final(self) == old(self).aborted(),
    {
        self.window_aborted = self.window_aborted.wrapping_add(1);
        self.total_aborted = self.total_aborted.wrapping_add(1);
    }

    fn emit_report(&self, window: u32) -> (r: Vec<u8>)
        ensures
            r@ == self.line(window),
    {
        proof {
            reveal_strlit("[loam-tp] w=");
            reveal_strlit(" c=");
            reveal_strlit(" a=");
            reveal_strlit(" C=");
            reveal_strlit(" A=");
            reveal_strlit(" bad=");
        }
        let mut line: Vec<u8> = Vec::new();
        text::push_tag(&mut line, "[loam-tp] w=");
        text::push_hex(&mut line, window, 8);
        text::push_tag(&mut line, " c=");
        text::push_hex(&mut line, self.window_committed, 8);
        text::push_tag(&mut line, " a=");
        text::push_hex(&mut line, self.window_aborted, 8);
        text::push_tag(&mut line, " C=");
        text::push_hex(&mut line, self.total_committed, 8);
        text::push_tag(&mut line, " A=");
        text::push_hex(&mut line, self.total_aborted, 8);
        if self.unparsed != 0 {
            text::push_tag(&mut line, " bad=");
            text::push_hex(&mut line, self.unparsed, 8);
        }
        assert(line@ =~= self.line(window));
        line
    }
}

/// A counter of what the plane resolved.
pub struct ModuleState {
    pub ticks: u32,
    pub last_report_tick: u32,
    pub report_ticks: u32,
    pub tally: Tally,
    /// What was read and not counted yet.
    pub input: Vec<u8>,
}

impl ModuleState {
    pub open spec fn wf(&self) -> bool {
        self.report_ticks >= 1 && self.input@.len() <= ASM
    }

    pub fn new(report_ticks: u32) -> (r: Self)
        ensures
            r.wf(),
            r.report_ticks == (if report_ticks == 0 {
                1000
            } else {
                report_ticks
            }),
            r.ticks == 0 && r.last_report_tick == 0 && r.input@.len() == 0,
            r.tally == (Tally {
                window_committed: 0,
                window_aborted: 0,
                total_committed: 0,
                total_aborted: 0,
                unparsed: 0,
            }),
    {
        ModuleState {
            ticks: 0,
            last_report_tick: 0,
            report_ticks: if report_ticks == 0 {
                1000
            } else {
                report_ticks
            },
            tally: Tally {
                window_committed: 0,
                window_aborted: 0,
                total_committed: 0,
                total_aborted: 0,
                unparsed: 0,
            },
            input: Vec::new(),
        }
    }

    /// A step begins.
    pub fn begin_step(&mut self)
        requires
            old(self).wf(),
        ensures
            final(self).wf(),
            *final(self) == (ModuleState { ticks: old(self).ticks.wrapping_add(1), ..*old(self) }),
    {
        self.ticks = self.ticks.wrapping_add(1);
    }

    /// How much can be read now.
    pub fn room(&self) -> (r: usize)
        requires
            self.wf(),
        ensures
            r == if ASM - self.input@.len() < READ_BUF {
                0int
            } else {
                READ_BUF as int
            },
    {
        if ASM - self.input.len() < READ_BUF {
            0
        } else {
            READ_BUF
        }
    }

    /// So much was read.
    pub fn feed(&mut self, read: &[u8])
        requires
            old(self).wf(),
            old(self).input@.len() + read@.len() <= ASM,
        ensures
            final(self).wf(),
            final(self).input@ == old(self).input@ + read@,
            final(self).tally == old(self).tally && final(self).ticks == old(self).ticks,
            final(self).last_report_tick == old(self).last_report_tick && final(self).report_ticks == old(self).report_ticks,
    {
        bytes::append(&mut self.input, read);
    }

    /// Count what was read as acknowledgements.
    pub fn count_acks(&mut self)
        requires
            old(self).wf(),
        ensures
            final(self).wf(),
            final(self).input@.len() == 0,
            final(self).tally == old(self).tally.all_acked(old(self).input@),
            final(self).ticks == old(self).ticks,
            final(self).last_report_tick == old(self).last_report_tick && final(self).report_ticks == old(self).report_ticks,
    {
        let mut off: usize = 0;
        while off < self.input.len()
            invariant
                off <= self.input@.len(),
                self.wf(),
                self.input@ == old(self).input@,
                self.tally == old(self).tally.all_acked(old(self).input@.take(off as int)),
                self.ticks == old(self).ticks,
                self.last_report_tick == old(self).last_report_tick && self.report_ticks == old(self).report_ticks,
            decreases self.input@.len() - off,
        {
            let ack: u8 = self.input[off];
            assert(old(self).input@.take(off + 1).drop_last() =~= old(self).input@.take(off as int));
            if ack == ACK_REFUSED || ack == ACK_NOT_READY {
                self.tally.abort();
            } else {
                self.tally.commit();
            }
            off += 1;
        }
        assert(old(self).input@.take(off as int) =~= old(self).input@);
        self.input = Vec::new();
    }

    /// Count what stands at the front of the input. Returns whether to go on: not behind
    /// a record that is not whole.
    pub fn count_record(&mut self, front: Framed) -> (r: bool)
        requires
            old(self).wf(),
            front matches Framed::Whole { len, resolution } ==> 1 <= len <= old(self).input@.len(),
            front is Foreign ==> old(self).input@.len() > 0,
        ensures
            final(self).wf(),
            r == !(front is Partial),
            match front {
                Framed::Whole { len, resolution } => final(self).input@ == old(self).input@.skip(len as int) && final(self).tally == old(self).tally.resolved(resolution),
                Framed::Partial => *final(self) == *old(self),
                Framed::Foreign => final(self).input@ == old(self).input@.skip(1) && final(self).tally == (Tally {
                    unparsed: old(self).tally.unparsed.wrapping_add(1),
                    ..old(self).tally
                }),
            },
            final(self).ticks == old(self).ticks,
            final(self).last_report_tick == old(self).last_report_tick && final(self).report_ticks == old(self).report_ticks,
    {
        match front {
            Framed::Whole { len, resolution } => {
                match resolution {
                    Resolution::Committed => self.tally.commit(),
                    Resolution::Aborted => self.tally.abort(),
                    Resolution::Marker => {},
                }
                self.input = bytes::behind(self.input.as_slice(), len);
                true
            },
            Framed::Partial => false,
            Framed::Foreign => {
                self.tally.unparsed = self.tally.unparsed.wrapping_add(1);
                self.input = bytes::behind(self.input.as_slice(), 1);
                true
            },
        }
    }

    /// The step ends. Returns the line to log, if a report is due; then a window begins.
    pub fn end_step(&mut self) -> (r: Option<Vec<u8>>)
        requires
            old(self).wf(),
        ensures
            final(self).wf(),
            ({
                let window = old(self).ticks.wrapping_sub(old(self).last_report_tick);
                match r {
                    Some(line) => window >= old(self).report_ticks && line@ == old(self).tally.line(window)
                        && *final(self) == (ModuleState {
                        last_report_tick: old(self).ticks,
                        tally: old(self).tally.next_window(),
                        ..*old(self)
                    }),
                    None => window < old(self).report_ticks && *final(self) == *old(self),
                }
            }),
    {
        let window: u32 = self.ticks.wrapping_sub(self.last_report_tick);
        if window < self.report_ticks {
            return None;
        }
        let line: Vec<u8> = self.tally.emit_report(window);
        self.last_report_tick = self.ticks;
        self.tally.window_committed = 0;
        self.tally.window_aborted = 0;
        Some(line)
    }
}

/// How many of the acknowledgements are refusals.
pub open spec fn refusals(acks: Seq<u8>) -> nat
    decreases acks.len(),
{
    if acks.len() == 0 {
        0
    } else {
        refusals(acks.drop_last()) + if acks.last() == ACK_REFUSED || acks.last() == ACK_NOT_READY {
            1nat
        } else {
            0nat
        }
    }
}

/// Each acknowledgement is counted once, as a refusal or not, as long as the counts do
/// not run over.
pub proof fn lemma_every_ack_counts(t: Tally, acks: Seq<u8>)
    requires
        t.total_committed + acks.len() <= u32::MAX,
        t.total_aborted + acks.len() <= u32::MAX,
    ensures
        t.all_acked(acks).total_aborted == t.total_aborted + refusals(acks),
        t.all_acked(acks).total_committed == t.total_committed + acks.len() - refusals(acks),
        refusals(acks) <= acks.len(),
    decreases acks.len(),
{
    if acks.len() > 0 {
        lemma_every_ack_counts(t, acks.drop_last());
    }
}

} // verus!
