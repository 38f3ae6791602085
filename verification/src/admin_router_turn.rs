//! The turns of one step of the router: which channel is read next.
//!
//! A step reads requests first, then the answers of the namespace, of the body store and
//! of the object index. From each it takes only so many, so that none keeps the others
//! waiting; where nothing is there, it goes on to the next.
use crate::admin_router_state::MAX_OPS_PER_STEP;
use vstd::prelude::*;

verus! {

/// What the router reads.
#[derive(Debug, Clone, Copy, PartialEq, Eq, Structural)]
pub enum Source {
    Requests,
    Namespace,
    Body,
    Object,
}

/// The place of a source in a step.
pub open spec fn place(s: Source) -> int {
    match s {
        Source::Requests => 0,
        Source::Namespace => 1,
        Source::Body => 2,
        Source::Object => 3,
    }
}

/// The source behind another.
pub open spec fn behind(s: Source) -> Option<Source> {
    match s {
        Source::Requests => Some(Source::Namespace),
        Source::Namespace => Some(Source::Body),
        Source::Body => Some(Source::Object),
        Source::Object => None,
    }
}

/// Where a step stands: the source that is read next, if the step is not over, and how
/// much was taken from it.
#[derive(Debug, Clone, Copy, PartialEq, Eq, Structural)]
pub struct Turn {
    pub source: Option<Source>,
    pub taken: u32,
}

impl Turn {
    /// There is always room for one more from the source that is read.
    pub open spec fn wf(self) -> bool {
        self.taken < MAX_OPS_PER_STEP
    }

    /// The step after the source was read, and something was there or was not.
    pub open spec fn after(self, got: bool) -> Turn {
        match self.source {
            None => self,
            Some(s) => if got && self.taken + 1 < MAX_OPS_PER_STEP {
                Turn { taken: (self.taken + 1) as u32, ..self }
            } else {
                Turn { source: behind(s), taken: 0 }
            },
        }
    }

    /// A step begins.
    pub fn begin() -> (r: Self)
        ensures
            r == (Turn { source: Some(Source::Requests), taken: 0 }),
            r.wf(),
    {
        Turn { source: Some(Source::Requests), taken: 0 }
    }

    /// The source was read, and something was there or was not.
    pub fn read(&mut self, got: bool)
        requires
            old(self).wf(),
        ensures
            final(self).wf(),
            *final(self) == old(self).after(got),
    {
        match self.source {
            None => {},
            Some(s) => {
                if got && self.taken + 1 < MAX_OPS_PER_STEP {
                    self.taken = self.taken + 1;
                } else {
                    self.taken = 0;
                    self.source = match s {
                        Source::Requests => Some(Source::Namespace),
                        Source::Namespace => Some(Source::Body),
                        Source::Body => Some(Source::Object),
                        Source::Object => None,
                    };
                }
            },
        }
    }
}

/// How much a step takes from a source, where `found` tells of each reading whether
/// something was there.
pub open spec fn taken_from(t: Turn, found: Seq<bool>, s: Source) -> nat
    decreases found.len(),
{
    if found.len() == 0 || t.source is None {
        0
    } else {
        taken_from(t.after(found[0]), found.skip(1), s) + if found[0] && t.source == Some(s) {
            1nat
        } else {
            0nat
        }
    }
}

/// Where a step stands after these readings.
pub open spec fn turned(t: Turn, found: Seq<bool>) -> Turn
    decreases found.len(),
{
    if found.len() == 0 {
        t
    } else {
        turned(t.after(found[0]), found.skip(1))
    }
}

/// How many readings there are left at most.
spec fn left(t: Turn) -> int {
    match t.source {
        None => 0,
        Some(s) => (4 - place(s)) * MAX_OPS_PER_STEP - t.taken,
    }
}

proof fn lemma_taken_from(t: Turn, found: Seq<bool>, s: Source)
    requires
        t.wf(),
    ensures
        taken_from(t, found, s) <= match t.source {
            None => 0,
            Some(now) => if place(now) < place(s) {
                MAX_OPS_PER_STEP as int
            } else if now == s {
                MAX_OPS_PER_STEP - t.taken
            } else {
                0
            },
        },
    decreases found.len(),
{
    if found.len() > 0 && t.source is Some {
        lemma_taken_from(t.after(found[0]), found.skip(1), s);
    }
}

proof fn lemma_turned(t: Turn, found: Seq<bool>)
    requires
        t.wf(),
        found.len() >= left(t),
    ensures
        turned(t, found).source is None,
    decreases found.len(),
{
    if found.len() > 0 {
        lemma_turned(t.after(found[0]), found.skip(1));
    }
}

/// A step takes no more than so much from each source, whatever is there, and is over
/// after as many readings as it may take in all.
pub proof fn lemma_step_is_bounded(found: Seq<bool>, s: Source)
    ensures
        taken_from(Turn { source: Some(Source::Requests), taken: 0 }, found, s) <= MAX_OPS_PER_STEP,
        found.len() >= 4 * MAX_OPS_PER_STEP ==> turned(
            Turn { source: Some(Source::Requests), taken: 0 },
            found,
        ).source is None,
{
    let t = Turn { source: Some(Source::Requests), taken: 0 };
    lemma_taken_from(t, found, s);
    if found.len() >= 4 * MAX_OPS_PER_STEP {
        lemma_turned(t, found);
    }
}

} // verus!
