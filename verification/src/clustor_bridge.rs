//! A bridge between proposals and a replica group.
//!
//! Proposals are wrapped and sent to the group; what the group committed is turned into
//! committed records. Both come as streams of bytes, in which a record may end in the
//! middle of a read. How a stream is cut into records, and what stands in one, is handed
//! in; what follows from it is decided here.
//!
//! A committed record carries a proof, put together here, where the group's identity and
//! the entry are both in hand: the source of the log, the entry's term and index, how many
//! voters make a quorum, and a witness of the bytes that were committed.
use crate::bytes;
use crate::loam_limits;
use crate::namespace_provider::CommitProof;
use crate::text;
use vstd::prelude::*;

verus! {

/// How much of a stream is kept.
pub const BUF: usize = 4400;

/// A byte whose bits are turned to the left.
pub open spec fn turned(b: u8, by: u8) -> u8 {
    if by == 0 {
        b
    } else {
        (b << by) | (b >> ((8 - by) as u8))
    }
}

/// A group's name folded into 16 bytes: each byte goes to its place, those that stand
/// further behind turned by one bit more for each round.
pub open spec fn folded(name: Seq<u8>) -> Seq<u8>
    decreases name.len(),
{
    if name.len() == 0 {
        Seq::new(16, |i: int| 0u8)
    } else {
        let before = folded(name.drop_last());
        let i = name.len() - 1;
        before.update(i % 16, before[i % 16] ^ turned(name.last(), ((i / 16) % 8) as u8))
    }
}

fn turn(b: u8, by: u8) -> (r: u8)
    requires
        by < 8,
    ensures
        r == turned(b, by),
{
    if by == 0 {
        b
    } else {
        (b << by) | (b >> (8 - by))
    }
}

proof fn lemma_folded_len(name: Seq<u8>)
    ensures
        folded(name).len() == 16,
    decreases name.len(),
{
    if name.len() > 0 {
        lemma_folded_len(name.drop_last());
    }
}

/// Fold a group's name into 16 bytes.
pub fn p_group_id(name: &[u8]) -> (r: [u8; 16])
    ensures
        r@ == folded(name@),
{
    let mut out: [u8; 16] = [0u8; 16];
    let mut i: usize = 0;
    assert(out@ =~= folded(name@.take(0)));
    while i < name.len()
        invariant
            i <= name@.len(),
            out@ == folded(name@.take(i as int)),
        decreases name@.len() - i,
    {
        let slot: usize = i % 16;
        let by: u8 = ((i / 16) % 8) as u8;
        assert(name@.take(i + 1).drop_last() =~= name@.take(i as int));
        out[slot] = out[slot] ^ turn(name[i], by);
        i += 1;
    }
    assert(name@.take(i as int) =~= name@);
    out
}

/// The name of a group that has at most 16 bytes stands as it is, with zeros behind it.
pub proof fn lemma_short_name_stands(name: Seq<u8>)
    requires
        name.len() <= 16,
    ensures
        folded(name) == name + Seq::new((16 - name.len()) as nat, |i: int| 0u8),
    decreases name.len(),
{
    if name.len() > 0 {
        let before = name.drop_last();
        lemma_short_name_stands(before);
        let i = name.len() - 1;
        let b = name.last();
        assert(0u8 ^ b == b) by (bit_vector);
        assert(i % 16 == i && i / 16 == 0);
        assert(folded(name) =~= name + Seq::new((16 - name.len()) as nat, |i: int| 0u8));
    } else {
        assert(folded(name) =~= name + Seq::new(16, |i: int| 0u8));
    }
}

/// A byte of a name, zero behind its end.
pub open spec fn byte_at(name: Seq<u8>, i: int) -> u8 {
    if i < name.len() {
        name[i]
    } else {
        0
    }
}

/// What the first `n` bytes of a name put into one place.
spec fn gathered(name: Seq<u8>, c: int, n: int) -> u8
    decreases n,
{
    if n <= 0 {
        0
    } else if (n - 1) % 16 == c {
        gathered(name, c, n - 1) ^ turned(byte_at(name, n - 1), (((n - 1) / 16) % 8) as u8)
    } else {
        gathered(name, c, n - 1)
    }
}

proof fn lemma_gathered_same(a: Seq<u8>, b: Seq<u8>, c: int, n: int)
    requires
        forall|i: int| 0 <= i < n && i % 16 == c ==> #[trigger] byte_at(a, i) == byte_at(b, i),
    ensures
        gathered(a, c, n) == gathered(b, c, n),
    decreases n,
{
    if n > 0 {
        lemma_gathered_same(a, b, c, n - 1);
        assert((n - 1) % 16 == c ==> byte_at(a, n - 1) == byte_at(b, n - 1));
    }
}

proof fn lemma_gathered_padded(name: Seq<u8>, c: int, n: int)
    requires
        n >= name.len(),
    ensures
        gathered(name, c, n) == gathered(name, c, name.len() as int),
    decreases n,
{
    if n > name.len() {
        lemma_gathered_padded(name, c, n - 1);
        let r = gathered(name, c, n - 1);
        let by = (((n - 1) / 16) % 8) as u8;
        let back = (8 - by) as u8;
        assert(by < 8 && back == 8 - by ==> (0u8 << by) | (0u8 >> back) == 0) by (bit_vector);
        assert(r ^ 0u8 == r) by (bit_vector);
    }
}

proof fn lemma_folded_is_gathered(name: Seq<u8>, c: int)
    requires
        0 <= c < 16,
    ensures
        folded(name)[c] == gathered(name, c, name.len() as int),
    decreases name.len(),
{
    if name.len() > 0 {
        let before = name.drop_last();
        let n = before.len() as int;
        lemma_folded_len(before);
        lemma_folded_is_gathered(before, c);
        assert forall|i: int| 0 <= i < n && i % 16 == c implies #[trigger] byte_at(before, i) == byte_at(name, i) by {}
        lemma_gathered_same(before, name, c, n);
        assert(byte_at(name, n) == name.last());
    }
}

proof fn lemma_gathered_differs(a: Seq<u8>, b: Seq<u8>, at: int, n: int)
    requires
        0 <= at < n,
        byte_at(a, at) != byte_at(b, at),
        forall|i: int| 0 <= i < n && i != at && i % 16 == at % 16 ==> #[trigger] byte_at(a, i) == byte_at(b, i),
    ensures
        gathered(a, at % 16, n) != gathered(b, at % 16, n),
    decreases n,
{
    let c = at % 16;
    let i = n - 1;
    let by = ((i / 16) % 8) as u8;
    let p = gathered(a, c, i);
    let q = gathered(b, c, i);
    if at < i {
        lemma_gathered_differs(a, b, at, i);
        if i % 16 == c {
            assert(byte_at(a, i) == byte_at(b, i));
            let t = turned(byte_at(a, i), by);
            assert(p != q ==> p ^ t != q ^ t) by (bit_vector);
        }
    } else {
        lemma_gathered_same(a, b, c, i);
        lemma_turned_differs(byte_at(a, i), byte_at(b, i), by);
        let s = turned(byte_at(a, i), by);
        let t = turned(byte_at(b, i), by);
        assert(s != t ==> p ^ s != p ^ t) by (bit_vector);
    }
}

/// A name is not cut: names that differ in a byte, however far behind, have different
/// identities, unless they also differ in another byte that goes to the same place. Behind
/// its end a name counts as zeros.
pub proof fn lemma_every_byte_counts(a: Seq<u8>, b: Seq<u8>, at: int)
    requires
        0 <= at,
        byte_at(a, at) != byte_at(b, at),
        forall|i: int| 0 <= i && i != at && i % 16 == at % 16 ==> #[trigger] byte_at(a, i) == byte_at(b, i),
    ensures
        folded(a)[at % 16] != folded(b)[at % 16],
        folded(a) != folded(b),
{
    let c = at % 16;
    let n = if a.len() > b.len() {
        a.len() as int
    } else {
        b.len() as int
    };
    lemma_gathered_differs(a, b, at, n);
    lemma_gathered_padded(a, c, n);
    lemma_gathered_padded(b, c, n);
    lemma_folded_is_gathered(a, c);
    lemma_folded_is_gathered(b, c);
}

/// Groups of up to 32 bytes of name whose names begin with the same 16 bytes, and are not
/// the same but for zeros at their end, have different identities.
pub proof fn lemma_shared_beginning_is_told_apart(a: Seq<u8>, b: Seq<u8>, at: int)
    requires
        16 <= a.len() <= 32,
        16 <= b.len() <= 32,
        a.take(16) == b.take(16),
        0 <= at,
        byte_at(a, at) != byte_at(b, at),
    ensures
        folded(a) != folded(b),
{
    assert forall|i: int| 0 <= i < 16 implies #[trigger] byte_at(a, i) == byte_at(b, i) by {
        assert(a.take(16)[i] == a[i]);
        assert(b.take(16)[i] == b[i]);
    }
    lemma_every_byte_counts(a, b, at);
}

proof fn lemma_turned_differs(a: u8, b: u8, by: u8)
    requires
        a != b,
        by < 8,
    ensures
        turned(a, by) != turned(b, by),
{
    let back = (8 - by) as u8;
    if by > 0 {
        assert(a != b && 0 < by && by < 8 && back == 8 - by ==> (a << by) | (a >> back) != (b << by) | (b >> back))
            by (bit_vector);
    }
}

/// What stands at the front of the proposals.
pub enum Proposal {
    /// The start of a record.
    Partial,
    /// No record.
    Foreign,
    /// A whole record: with the frame that carries it to the group, if it is a proposal
    /// and can be wrapped. A frame that is too long is not sent.
    Whole { len: usize, frame: Option<Vec<u8>> },
}

/// An entry that the group committed.
pub struct CommittedEntry {
    pub partition_id: u64,
    pub term: u64,
    pub index: u64,
    /// The proposal, as it was sent to the group.
    pub command: Vec<u8>,
}

/// What the source of a log is made of.
pub struct SourceQuery {
    pub group_id: [u8; 16],
    pub partition_id: u64,
}

/// What the witness of a commit is made over.
pub struct WitnessQuery<'a> {
    pub source: [u8; 16],
    pub term: u64,
    pub index: u64,
    pub command: &'a [u8],
}

/// The proof of a commit.
pub fn proof_of(source: [u8; 16], term: u64, index: u64, quorum: u8, witness: [u8; 32]) -> (r: CommitProof)
    ensures
        r == (CommitProof { source, term, index, quorum, witness }),
{
    CommitProof { source, term, index, quorum, witness }
}

/// What to ask for the witness of an entry.
pub fn witness_query<'a>(entry: &'a CommittedEntry, source: [u8; 16]) -> (r: WitnessQuery<'a>)
    ensures
        r.source == source,
        r.term == entry.term,
        r.index == entry.index,
        r.command@ == entry.command@,
{
    WitnessQuery { source, term: entry.term, index: entry.index, command: entry.command.as_slice() }
}

/// What becomes of an entry of ours, by its committed record: one that cannot be made, or
/// is too long, is not sent.
pub fn outcome_of(record: Option<&[u8]>) -> (r: CommitOutcome)
    ensures
        r == if record matches Some(b) && b@.len() <= BUF {
            CommitOutcome::Emitted
        } else {
            CommitOutcome::Failed
        },
{
    match record {
        Some(b) => if b.len() <= BUF {
            CommitOutcome::Emitted
        } else {
            CommitOutcome::Failed
        },
        None => CommitOutcome::Failed,
    }
}

/// What became of a frame from the group.
#[derive(Debug, Clone, Copy, PartialEq, Eq, Structural)]
pub enum CommitOutcome {
    /// It is none of ours.
    Skipped,
    /// It was turned into a committed record, which was sent.
    Emitted,
    /// It could not be.
    Failed,
}

/// What the bridge holds.
pub ghost struct BridgeModel {
    /// How many voters make a quorum.
    pub witness_quorum: u8,
    /// The identity of the group.
    pub group_id: Seq<u8>,
    pub ticks: u32,
    pub handled: u32,
    /// What was read of the proposals and of the commits, and not taken yet.
    pub proposals: Seq<u8>,
    pub commits: Seq<u8>,
    /// What the group's channel has not taken of a frame.
    pub owed: Seq<u8>,
    pub forwarded: u32,
    pub committed: u32,
    pub errors: u32,
}

/// The counts as a line.
pub open spec fn bridge_line(forwarded: u32, committed: u32, errors: u32) -> Seq<u8> {
    text::ascii("[bridge] f=") + text::hex8(forwarded) + text::ascii(" c=") + text::hex8(committed) + text::ascii(
        " e=",
    ) + text::hex8(errors)
}

impl BridgeModel {
    /// A step begins.
    pub open spec fn stepped(self) -> BridgeModel {
        BridgeModel { ticks: self.ticks.wrapping_add(1), handled: 0, ..self }
    }

    /// Another proposal can be taken: not while a frame is owed.
    pub open spec fn wants_proposal(self) -> bool {
        self.handled < loam_limits::OPS_PER_STEP && self.owed.len() == 0
    }

    pub open spec fn failed(self) -> BridgeModel {
        BridgeModel { errors: self.errors.wrapping_add(1), ..self }
    }

    /// What stands at the front of the proposals is taken.
    pub open spec fn proposed(self, len: Option<int>, frame: Option<Seq<u8>>) -> BridgeModel {
        match len {
            None => BridgeModel {
                proposals: self.proposals.skip(1),
                handled: (self.handled + 1) as u32,
                ..self
            }.failed(),
            Some(n) => {
                let t = BridgeModel {
                    proposals: self.proposals.skip(n),
                    handled: (self.handled + 1) as u32,
                    ..self
                };
                match frame {
                    Some(f) => if f.len() <= BUF {
                        BridgeModel { owed: f, ..t }
                    } else {
                        t.failed()
                    },
                    None => t.failed(),
                }
            },
        }
    }

    /// The channel took this much of what is owed.
    pub open spec fn sent(self, n: int) -> BridgeModel {
        BridgeModel {
            owed: if n >= self.owed.len() {
                Seq::empty()
            } else {
                self.owed.skip(n)
            },
            ..self
        }
    }

    /// The channel took this much of a frame that was offered for the first time. It
    /// counts as forwarded if it went out at once.
    pub open spec fn offered(self, n: int) -> BridgeModel {
        let t = self.sent(n);
        if t.owed.len() == 0 {
            BridgeModel { forwarded: t.forwarded.wrapping_add(1), ..t }
        } else {
            t
        }
    }

    /// A frame from the group is taken.
    pub open spec fn taken(self, consumed: int, outcome: CommitOutcome) -> BridgeModel {
        let t = BridgeModel { commits: self.commits.skip(consumed), ..self };
        match outcome {
            CommitOutcome::Skipped => t,
            CommitOutcome::Emitted => BridgeModel { committed: t.committed.wrapping_add(1), ..t },
            CommitOutcome::Failed => t.failed(),
        }
    }
}

/// A bridge to a replica group.
pub struct ModuleState {
    witness_quorum: u8,
    group_id: [u8; 16],
    ticks: u32,
    handled: u32,
    proposals: Vec<u8>,
    commits: Vec<u8>,
    owed: Vec<u8>,
    forwarded: u32,
    committed: u32,
    errors: u32,
}

impl View for ModuleState {
    type V = BridgeModel;

    closed spec fn view(&self) -> BridgeModel {
        BridgeModel {
            witness_quorum: self.witness_quorum,
            group_id: self.group_id@,
            ticks: self.ticks,
            handled: self.handled,
            proposals: self.proposals@,
            commits: self.commits@,
            owed: self.owed@,
            forwarded: self.forwarded,
            committed: self.committed,
            errors: self.errors,
        }
    }
}

impl ModuleState {
    /// What every operation keeps.
    pub open spec fn wf(&self) -> bool {
        &&& self@.handled <= loam_limits::OPS_PER_STEP
        &&& self@.proposals.len() <= BUF
        &&& self@.commits.len() <= BUF
        &&& self@.owed.len() <= BUF
    }

    /// A bridge to a group of one voter and without a name.
    pub fn new() -> (r: Self)
        ensures
            r.wf(),
            r@ == (BridgeModel {
                witness_quorum: 1,
                group_id: folded(Seq::empty()),
                ticks: 0,
                handled: 0,
                proposals: Seq::empty(),
                commits: Seq::empty(),
                owed: Seq::empty(),
                forwarded: 0,
                committed: 0,
                errors: 0,
            }),
    {
        let no_name: [u8; 16] = [0u8; 16];
        assert(no_name@ =~= folded(Seq::empty()));
        ModuleState {
            witness_quorum: 1,
            group_id: no_name,
            ticks: 0,
            handled: 0,
            proposals: Vec::new(),
            commits: Vec::new(),
            owed: Vec::new(),
            forwarded: 0,
            committed: 0,
            errors: 0,
        }
    }

    /// Set how many voters make a quorum.
    pub fn set_witness_quorum(&mut self, quorum: u8)
        requires
            old(self).wf(),
        ensures
            final(self).wf(),
            final(self)@ == (BridgeModel { witness_quorum: quorum, ..old(self)@ }),
    {
        self.witness_quorum = quorum;
    }

    /// Set the name of the group.
    pub fn set_group_id(&mut self, name: &[u8])
        requires
            old(self).wf(),
        ensures
            final(self).wf(),
            final(self)@ == (BridgeModel { group_id: folded(name@), ..old(self)@ }),
    {
        self.group_id = p_group_id(name);
    }

    /// What to ask for the source of an entry.
    pub fn source_query(&self, entry: &CommittedEntry) -> (r: SourceQuery)
        requires
            self.wf(),
        ensures
            r.group_id@ == self@.group_id,
            r.partition_id == entry.partition_id,
    {
        SourceQuery { group_id: self.group_id, partition_id: entry.partition_id }
    }

    /// The proof that goes with an entry, from its source and its witness.
    pub fn commit_proof(&self, entry: &CommittedEntry, source: [u8; 16], witness: [u8; 32]) -> (r: CommitProof)
        requires
            self.wf(),
        ensures
            r == (CommitProof {
                source,
                term: entry.term,
                index: entry.index,
                quorum: self@.witness_quorum,
                witness,
            }),
    {
        proof_of(source, entry.term, entry.index, self.witness_quorum, witness)
    }

    /// A step begins. Returns the line to log, every 2048 steps.
    pub fn step(&mut self) -> (r: Option<Vec<u8>>)
        requires
            old(self).wf(),
        ensures
            final(self).wf(),
            final(self)@ == old(self)@.stepped(),
            match r {
                Some(line) => final(self)@.ticks % 2048 == 0 && line@ == bridge_line(
                    old(self)@.forwarded,
                    old(self)@.committed,
                    old(self)@.errors,
                ),
                None => final(self)@.ticks % 2048 != 0,
            },
    {
        self.ticks = self.ticks.wrapping_add(1);
        self.handled = 0;
        if self.ticks % 2048 != 0 {
            return None;
        }
        proof {
            reveal_strlit("[bridge] f=");
            reveal_strlit(" c=");
            reveal_strlit(" e=");
        }
        let mut line: Vec<u8> = Vec::new();
        text::push_tag(&mut line, "[bridge] f=");
        text::push_hex(&mut line, self.forwarded, 8);
        text::push_tag(&mut line, " c=");
        text::push_hex(&mut line, self.committed, 8);
        text::push_tag(&mut line, " e=");
        text::push_hex(&mut line, self.errors, 8);
        assert(line@ =~= bridge_line(self.forwarded, self.committed, self.errors));
        Some(line)
    }

    /// What the group's channel has not taken of a frame.
    pub fn owed(&self) -> (r: &[u8])
        ensures
            r@ == self@.owed,
    {
        self.owed.as_slice()
    }

    /// The channel took this much of what is owed. Returns whether nothing is owed now.
    pub fn flush(&mut self, n: usize) -> (r: bool)
        requires
            old(self).wf(),
        ensures
            final(self).wf(),
            final(self)@ == old(self)@.sent(n as int),
            r == (final(self)@.owed.len() == 0),
    {
        if n >= self.owed.len() {
            self.owed = Vec::new();
        } else {
            self.owed = bytes::behind(self.owed.as_slice(), n);
        }
        self.owed.len() == 0
    }

    /// The channel took this much of a frame that was offered for the first time.
    pub fn offer_done(&mut self, n: usize)
        requires
            old(self).wf(),
        ensures
            final(self).wf(),
            final(self)@ == old(self)@.offered(n as int),
    {
        if self.flush(n) {
            self.forwarded = self.forwarded.wrapping_add(1);
        }
    }

    /// How much of the proposals can be read now.
    pub fn proposal_room(&self) -> (r: usize)
        requires
            self.wf(),
        ensures
            r == BUF - self@.proposals.len(),
    {
        BUF - self.proposals.len()
    }

    /// So much of the proposals was read.
    pub fn feed_proposals(&mut self, read: &[u8])
        requires
            old(self).wf(),
            old(self)@.proposals.len() + read@.len() <= BUF,
        ensures
            final(self).wf(),
            final(self)@ == (BridgeModel { proposals: old(self)@.proposals + read@, ..old(self)@ }),
    {
        bytes::append(&mut self.proposals, read);
    }

    /// The proposals, if another can be taken.
    pub fn next_proposal(&self) -> (r: Option<&[u8]>)
        requires
            self.wf(),
        ensures
            match r {
                Some(p) => self@.wants_proposal() && p@ == self@.proposals,
                None => !self@.wants_proposal(),
            },
    {
        if self.handled < loam_limits::OPS_PER_STEP && self.owed.len() == 0 {
            Some(self.proposals.as_slice())
        } else {
            None
        }
    }

    /// Take what stands at the front of the proposals. What is no record is skipped byte
    /// by byte. Returns whether to go on: not behind a record that is not whole.
    pub fn take_proposal(&mut self, front: Proposal) -> (r: bool)
        requires
            old(self).wf(),
            old(self)@.wants_proposal(),
            front matches Proposal::Whole { len, frame } ==> len <= old(self)@.proposals.len(),
            front is Foreign ==> old(self)@.proposals.len() > 0,
        ensures
            final(self).wf(),
            r == !(front is Partial),
            final(self)@ == (match front {
                Proposal::Partial => old(self)@,
                Proposal::Foreign => old(self)@.proposed(None, None),
                Proposal::Whole { len, frame } => old(self)@.proposed(
                    Some(len as int),
                    match frame {
                        Some(f) => Some(f@),
                        None => None,
                    },
                ),
            }),
    {
        match front {
            Proposal::Partial => false,
            Proposal::Foreign => {
                self.proposals = bytes::behind(self.proposals.as_slice(), 1);
                self.handled = self.handled + 1;
                self.errors = self.errors.wrapping_add(1);
                true
            },
            Proposal::Whole { len, frame } => {
                self.proposals = bytes::behind(self.proposals.as_slice(), len);
                self.handled = self.handled + 1;
                match frame {
                    Some(f) => if f.len() <= BUF {
                        self.owed = f;
                    } else {
                        self.errors = self.errors.wrapping_add(1);
                    },
                    None => {
                        self.errors = self.errors.wrapping_add(1);
                    },
                }
                true
            },
        }
    }

    /// How much of the commits can be read now.
    pub fn commit_room(&self) -> (r: usize)
        requires
            self.wf(),
        ensures
            r == BUF - self@.commits.len(),
    {
        BUF - self.commits.len()
    }

    /// So much of the commits was read.
    pub fn feed_commits(&mut self, read: &[u8])
        requires
            old(self).wf(),
            old(self)@.commits.len() + read@.len() <= BUF,
        ensures
            final(self).wf(),
            final(self)@ == (BridgeModel { commits: old(self)@.commits + read@, ..old(self)@ }),
    {
        bytes::append(&mut self.commits, read);
    }

    /// The commits that were read.
    pub fn next_commit(&self) -> (r: &[u8])
        ensures
            r@ == self@.commits,
    {
        self.commits.as_slice()
    }

    /// A whole frame from the group was taken, and this became of it.
    pub fn take_commit(&mut self, consumed: usize, outcome: CommitOutcome)
        requires
            old(self).wf(),
            consumed <= old(self)@.commits.len(),
        ensures
            final(self).wf(),
            final(self)@ == old(self)@.taken(consumed as int, outcome),
    {
        self.commits = bytes::behind(self.commits.as_slice(), consumed);
        match outcome {
            CommitOutcome::Skipped => {},
            CommitOutcome::Emitted => {
                self.committed = self.committed.wrapping_add(1);
            },
            CommitOutcome::Failed => {
                self.errors = self.errors.wrapping_add(1);
            },
        }
    }
}

/// A frame that the channel takes in parts goes out whole and in order, before another is
/// begun.
pub proof fn lemma_frame_goes_out_whole(s: BridgeModel, n: int)
    requires
        0 <= n <= s.owed.len(),
    ensures
        s.owed.take(n) + s.sent(n).owed == s.owed,
        n < s.owed.len() ==> !s.sent(n).wants_proposal() && !s.sent(n).stepped().wants_proposal(),
{
    assert(s.owed.take(n) + s.sent(n).owed =~= s.owed);
}

} // verus!
