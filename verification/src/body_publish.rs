//! In which order a blob is published, copied to its name, and removed.
//!
//! Making a file's bytes durable does not make durable the name that finds them. A blob
//! is published only once both are: by writing another file and renaming it, or by
//! writing in place and making the name durable after the bytes. A removal counts only
//! once the name cannot come back.
use crate::loam_body_wire;
use vstd::prelude::*;

verus! {

/// A step of publishing a blob.
#[derive(Debug, Clone, Copy, PartialEq, Eq, Structural)]
pub enum PubStep {
    /// Remove what an earlier attempt left under the staging name.
    ClearStaging,
    /// Write the bytes under the staging name and make them durable.
    WriteStaging,
    /// Rename the staged file to the blob's name, which makes the name durable.
    Rename,
    /// Remove the staged file after a failure.
    DropStaging,
    /// Remove what is under the blob's name.
    ClearTarget,
    /// Write the bytes under the blob's name and make them durable.
    WriteTarget,
    /// Make the blob's name durable.
    FenceTarget,
    /// Whether the blob is published.
    Done { ok: bool },
}

/// The first step: with a staging name, or in place after what is there was removed or
/// not.
pub open spec fn pub_first(staged: bool, replace: bool) -> PubStep {
    if staged {
        PubStep::ClearStaging
    } else if replace {
        PubStep::ClearTarget
    } else {
        PubStep::WriteTarget
    }
}

/// The step after one that succeeded or did not.
pub open spec fn pub_after(step: PubStep, ok: bool) -> PubStep {
    match step {
        PubStep::ClearStaging => PubStep::WriteStaging,
        PubStep::WriteStaging => if ok {
            PubStep::Rename
        } else {
            PubStep::DropStaging
        },
        PubStep::Rename => if ok {
            PubStep::Done { ok: true }
        } else {
            PubStep::DropStaging
        },
        PubStep::DropStaging => PubStep::Done { ok: false },
        PubStep::ClearTarget => PubStep::WriteTarget,
        PubStep::WriteTarget => if ok {
            PubStep::FenceTarget
        } else {
            PubStep::Done { ok: false }
        },
        PubStep::FenceTarget => PubStep::Done { ok },
        PubStep::Done { ok } => PubStep::Done { ok },
    }
}

/// The first step of publishing a blob.
pub fn publish_first(staged: bool, replace: bool) -> (r: PubStep)
    ensures
        r == pub_first(staged, replace),
{
    if staged {
        PubStep::ClearStaging
    } else if replace {
        PubStep::ClearTarget
    } else {
        PubStep::WriteTarget
    }
}

/// The next step of publishing a blob.
pub fn publish_next(step: PubStep, ok: bool) -> (r: PubStep)
    ensures
        r == pub_after(step, ok),
{
    match step {
        PubStep::ClearStaging => PubStep::WriteStaging,
        PubStep::WriteStaging => if ok {
            PubStep::Rename
        } else {
            PubStep::DropStaging
        },
        PubStep::Rename => if ok {
            PubStep::Done { ok: true }
        } else {
            PubStep::DropStaging
        },
        PubStep::DropStaging => PubStep::Done { ok: false },
        PubStep::ClearTarget => PubStep::WriteTarget,
        PubStep::WriteTarget => if ok {
            PubStep::FenceTarget
        } else {
            PubStep::Done { ok: false }
        },
        PubStep::FenceTarget => PubStep::Done { ok },
        PubStep::Done { ok } => PubStep::Done { ok },
    }
}

/// The step after these outcomes.
pub open spec fn pub_run(first: PubStep, outcomes: Seq<bool>) -> PubStep
    decreases outcomes.len(),
{
    if outcomes.len() == 0 {
        first
    } else {
        pub_after(pub_run(first, outcomes.drop_last()), outcomes.last())
    }
}

/// Among the outcomes there is one of this step, and it was a success.
pub open spec fn succeeded(first: PubStep, outcomes: Seq<bool>, step: PubStep) -> bool {
    exists|i: int|
        #![trigger outcomes[i]]
        0 <= i < outcomes.len() && pub_run(first, outcomes.take(i)) == step && outcomes[i]
}

proof fn lemma_succeeded_grows(first: PubStep, outcomes: Seq<bool>, step: PubStep)
    requires
        outcomes.len() > 0,
        succeeded(first, outcomes.drop_last(), step),
    ensures
        succeeded(first, outcomes, step),
{
    let before = outcomes.drop_last();
    let i = choose|i: int|
        #![trigger before[i]]
        0 <= i < before.len() && pub_run(first, before.take(i)) == step && before[i];
    assert(before.take(i) =~= outcomes.take(i));
    assert(outcomes[i] == before[i]);
}

/// A blob that counts as published has its bytes and its name durable: they were written
/// and made durable under the staging name and renamed, or under the blob's own name,
/// which was made durable after them.
pub proof fn lemma_published_is_durable(staged: bool, replace: bool, outcomes: Seq<bool>)
    requires
        pub_run(pub_first(staged, replace), outcomes) == (PubStep::Done { ok: true }),
    ensures
        ({
            let first = pub_first(staged, replace);
            if staged {
                succeeded(first, outcomes, PubStep::WriteStaging) && succeeded(first, outcomes, PubStep::Rename)
            } else {
                succeeded(first, outcomes, PubStep::WriteTarget) && succeeded(first, outcomes, PubStep::FenceTarget)
            }
        }),
{
    lemma_pub_run(staged, replace, outcomes);
}

proof fn lemma_pub_run(staged: bool, replace: bool, outcomes: Seq<bool>)
    ensures
        ({
            let first = pub_first(staged, replace);
            let step = pub_run(first, outcomes);
            &&& step == PubStep::Rename ==> staged && succeeded(first, outcomes, PubStep::WriteStaging)
            &&& step == PubStep::FenceTarget ==> !staged && succeeded(first, outcomes, PubStep::WriteTarget)
            &&& step == PubStep::Done { ok: true } ==> if staged {
                succeeded(first, outcomes, PubStep::WriteStaging) && succeeded(first, outcomes, PubStep::Rename)
            } else {
                succeeded(first, outcomes, PubStep::WriteTarget) && succeeded(first, outcomes, PubStep::FenceTarget)
            }
            &&& staged <==> step == PubStep::ClearStaging || step == PubStep::WriteStaging || step
                == PubStep::Rename || step == PubStep::DropStaging || (step is Done && staged)
        }),
    decreases outcomes.len(),
{
    let first = pub_first(staged, replace);
    if outcomes.len() > 0 {
        let before = outcomes.drop_last();
        lemma_pub_run(staged, replace, before);
        let last = outcomes.len() - 1;
        assert(outcomes.take(last) =~= before);
        assert(outcomes[last] == outcomes.last());
        if succeeded(first, before, PubStep::WriteStaging) {
            lemma_succeeded_grows(first, outcomes, PubStep::WriteStaging);
        }
        if succeeded(first, before, PubStep::Rename) {
            lemma_succeeded_grows(first, outcomes, PubStep::Rename);
        }
        if succeeded(first, before, PubStep::WriteTarget) {
            lemma_succeeded_grows(first, outcomes, PubStep::WriteTarget);
        }
        if succeeded(first, before, PubStep::FenceTarget) {
            lemma_succeeded_grows(first, outcomes, PubStep::FenceTarget);
        }
    }
}

/// A step of removing a blob.
#[derive(Debug, Clone, Copy, PartialEq, Eq, Structural)]
pub enum RetireStep {
    /// Remove the file.
    Unlink,
    /// Make the removal of the name durable.
    FenceName,
    /// See whether the name is there.
    Probe,
    /// Whether a file was removed, and whether the blob is provably gone.
    Done { unlinked: bool, gone: bool },
}

/// The step after one that succeeded or did not; a probe succeeds where the name is there.
pub open spec fn retire_after(step: RetireStep, fence: bool, ok: bool) -> RetireStep {
    match step {
        RetireStep::Unlink => if !ok {
            RetireStep::Probe
        } else if fence {
            RetireStep::FenceName
        } else {
            RetireStep::Done { unlinked: true, gone: false }
        },
        RetireStep::FenceName => RetireStep::Done { unlinked: true, gone: ok },
        RetireStep::Probe => RetireStep::Done { unlinked: false, gone: !ok },
        RetireStep::Done { unlinked, gone } => RetireStep::Done { unlinked, gone },
    }
}

/// The next step of removing a blob. The first is to remove the file.
pub fn retire_next(step: RetireStep, fence: bool, ok: bool) -> (r: RetireStep)
    ensures
        r == retire_after(step, fence, ok),
{
    match step {
        RetireStep::Unlink => if !ok {
            RetireStep::Probe
        } else if fence {
            RetireStep::FenceName
        } else {
            RetireStep::Done { unlinked: true, gone: false }
        },
        RetireStep::FenceName => RetireStep::Done { unlinked: true, gone: ok },
        RetireStep::Probe => RetireStep::Done { unlinked: false, gone: !ok },
        RetireStep::Done { unlinked, gone } => RetireStep::Done { unlinked, gone },
    }
}

/// A removal comes to an end after two steps at most, and counts only if the file was
/// removed and that is durable, or if there was none: a failed removal was followed by a
/// look that did not find the name.
pub proof fn lemma_gone_is_proved(fence: bool, first: bool, second: bool)
    ensures
        ({
            let end = retire_after(retire_after(RetireStep::Unlink, fence, first), fence, second);
            &&& end matches RetireStep::Done { unlinked, gone }
            &&& unlinked == first
            &&& gone <==> (first && fence && second) || (!first && !second)
        }),
{
}

/// A step of copying a streamed write to its name.
#[derive(Debug, Clone, Copy, PartialEq, Eq, Structural)]
pub enum CopyStep {
    /// Create the file.
    Create,
    /// Read up to so many bytes of the one file and write them to the other.
    Transfer { want: usize },
    /// Make the bytes durable.
    FenceBytes,
    /// Make the name durable.
    FenceName,
    /// Whether the copy is published.
    Done { ok: bool },
}

/// Copying a streamed write to its name.
pub struct CopyRun {
    pub step: CopyStep,
    pub copied: u64,
    pub written: u64,
}

impl CopyRun {
    /// No more is copied than there is, and the bytes are made durable only once all
    /// are copied.
    pub open spec fn wf(&self) -> bool {
        &&& self.copied <= self.written
        &&& self.step matches CopyStep::Transfer { want } ==> 1 <= want <= self.written - self.copied && want
            <= loam_body_wire::MAX_BODY
        &&& self.step is FenceBytes || self.step is FenceName || self.step == (CopyStep::Done { ok: true })
            ==> self.copied == self.written
    }

    /// What comes once so much is copied.
    pub open spec fn onward(copied: u64, written: u64) -> CopyStep {
        if copied >= written {
            CopyStep::FenceBytes
        } else if written - copied < loam_body_wire::MAX_BODY {
            CopyStep::Transfer { want: (written - copied) as usize }
        } else {
            CopyStep::Transfer { want: loam_body_wire::MAX_BODY }
        }
    }

    /// The run after a step moved so many bytes, or failed.
    pub open spec fn after(self, moved: Option<usize>) -> CopyRun {
        match moved {
            None => CopyRun { step: CopyStep::Done { ok: false }, ..self },
            Some(n) => match self.step {
                CopyStep::Create => CopyRun { step: CopyRun::onward(self.copied, self.written), ..self },
                CopyStep::Transfer { .. } => if n == 0 {
                    CopyRun { step: CopyStep::Done { ok: false }, ..self }
                } else {
                    let copied = (self.copied + n) as u64;
                    CopyRun { step: CopyRun::onward(copied, self.written), copied, ..self }
                },
                CopyStep::FenceBytes => CopyRun { step: CopyStep::FenceName, ..self },
                CopyStep::FenceName => CopyRun { step: CopyStep::Done { ok: true }, ..self },
                CopyStep::Done { ok } => self,
            },
        }
    }

    pub fn new(written: u64) -> (r: Self)
        ensures
            r.wf(),
            r == (CopyRun { step: CopyStep::Create, copied: 0, written }),
    {
        CopyRun { step: CopyStep::Create, copied: 0, written }
    }

    /// A step moved so many bytes, or failed; a step that moves none says 0.
    pub fn next(&mut self, moved: Option<usize>)
        requires
            old(self).wf(),
            moved matches Some(n) ==> (old(self).step matches CopyStep::Transfer { want } ==> n <= want),
        ensures
            final(self).wf(),
            *final(self) == old(self).after(moved),
    {
        match moved {
            None => {
                self.step = CopyStep::Done { ok: false };
            },
            Some(n) => match self.step {
                CopyStep::Create => {
                    self.go_on();
                },
                CopyStep::Transfer { .. } => {
                    if n == 0 {
                        self.step = CopyStep::Done { ok: false };
                    } else {
                        self.copied = self.copied + n as u64;
                        self.go_on();
                    }
                },
                CopyStep::FenceBytes => {
                    self.step = CopyStep::FenceName;
                },
                CopyStep::FenceName => {
                    self.step = CopyStep::Done { ok: true };
                },
                CopyStep::Done { .. } => {},
            },
        }
    }

    fn go_on(&mut self)
        requires
            old(self).copied <= old(self).written,
        ensures
            final(self).wf(),
            *final(self) == (CopyRun { step: CopyRun::onward(old(self).copied, old(self).written), ..*old(self) }),
    {
        self.step = if self.copied >= self.written {
            CopyStep::FenceBytes
        } else if self.written - self.copied < loam_body_wire::MAX_BODY as u64 {
            CopyStep::Transfer { want: (self.written - self.copied) as usize }
        } else {
            CopyStep::Transfer { want: loam_body_wire::MAX_BODY }
        };
    }
}

/// A copy that counts as published is whole, and its bytes were made durable, and then
/// its name: the step before was to make the name durable, and the one before that to
/// make the bytes durable.
pub proof fn lemma_copy_is_whole(before: CopyRun, moved: Option<usize>)
    requires
        before.wf(),
        moved matches Some(n) ==> (before.step matches CopyStep::Transfer { want } ==> n <= want),
    ensures
        before.after(moved).wf(),
        before.step !is Done && before.after(moved).step == (CopyStep::Done { ok: true }) ==> before.step is FenceName
            && moved is Some && before.copied == before.written,
        before.step !is Done && before.after(moved).step is FenceName ==> before.step is FenceBytes && moved is Some,
        before.step !is Done && before.after(moved).step is FenceBytes ==> before.after(moved).copied
            == before.written,
{
}

} // verus!
