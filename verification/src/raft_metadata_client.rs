//! What a proposer to the metadata plane says of itself from time to time.
use crate::text;
use vstd::prelude::*;

verus! {

/// What a proposer has done.
#[derive(Debug, Clone, Copy, PartialEq, Eq, Structural)]
pub struct ProposerState {
    pub ticks: u32,
    /// The log's descriptor, negative where it is not open.
    pub wal_fd: i32,
    /// Why it could not be opened.
    pub wal_open_rc: i32,
    pub proposed: u32,
    pub committed: u32,
    pub aborted: u32,
    pub apply_errors: u32,
    pub in_flight: u32,
}

/// The magnitude of a number.
pub open spec fn magnitude(v: i32) -> u32 {
    if v < 0 {
        (-v) as u32
    } else {
        v as u32
    }
}

/// The descriptor where the log is open, and why not where it is not.
pub open spec fn wal_field(s: ProposerState) -> i32 {
    if s.wal_fd >= 0 {
        s.wal_fd
    } else {
        s.wal_open_rc
    }
}

/// The line that is logged: the log, what was proposed, committed and refused, the errors
/// and what is in flight.
pub open spec fn heartbeat_line(s: ProposerState) -> Seq<u8> {
    let v = wal_field(s);
    text::ascii("[loam-mp] wal=") + seq![
        if v < 0 {
            0x2Du8
        } else {
            0x2Bu8
        },
    ] + text::hex8(magnitude(v)) + text::ascii(" p=") + text::hex8(s.proposed) + text::ascii(" c=") + text::hex8(
        s.committed,
    ) + text::ascii(" a=") + text::hex8(s.aborted) + text::ascii(" e=") + text::hex8(s.apply_errors) + text::ascii(
        " q=",
    ) + text::hex8(s.in_flight)
}

/// The line to log, every 2048 steps.
pub fn heartbeat(s: &ProposerState) -> (r: Option<Vec<u8>>)
    ensures
        match r {
            Some(line) => s.ticks % 2048 == 0 && line@ == heartbeat_line(*s),
            None => s.ticks % 2048 != 0,
        },
{
    if s.ticks % 2048 != 0 {
        return None;
    }
    proof {
        reveal_strlit("[loam-mp] wal=");
        reveal_strlit(" p=");
        reveal_strlit(" c=");
        reveal_strlit(" a=");
        reveal_strlit(" e=");
        reveal_strlit(" q=");
    }
    let v: i32 = if s.wal_fd >= 0 {
        s.wal_fd
    } else {
        s.wal_open_rc
    };
    let (sign, value): (u8, u32) = if v < 0 {
        (0x2D, (-(v as i64)) as u32)
    } else {
        (0x2B, v as u32)
    };
    let mut line: Vec<u8> = Vec::new();
    text::push_tag(&mut line, "[loam-mp] wal=");
    line.push(sign);
    text::push_hex(&mut line, value, 8);
    text::push_tag(&mut line, " p=");
    text::push_hex(&mut line, s.proposed, 8);
    text::push_tag(&mut line, " c=");
    text::push_hex(&mut line, s.committed, 8);
    text::push_tag(&mut line, " a=");
    text::push_hex(&mut line, s.aborted, 8);
    text::push_tag(&mut line, " e=");
    text::push_hex(&mut line, s.apply_errors, 8);
    text::push_tag(&mut line, " q=");
    text::push_hex(&mut line, s.in_flight, 8);
    assert(line@ =~= heartbeat_line(*s));
    Some(line)
}

} // verus!
