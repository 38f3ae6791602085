//! Subscriptions to the changes of a namespace.
//!
//! A change that a subscriber's channel does not take is not dropped quietly: the
//! next thing the subscriber is sent is the sign that changes were lost. The channel
//! is not written here; whether it took an event is handed back.
use crate::bytes;
use crate::loam_change_wire;
use crate::loam_limits;
use vstd::prelude::*;

verus! {

/// How many subscriptions there can be.
pub const NS_SUB_MAX: usize = 8;

/// One subscription, or a free place.
pub struct SubSlot {
    pub in_use: bool,
    /// A change was not taken, and the subscriber has not been told yet.
    pub lost_pending: bool,
    pub prefix: Vec<u8>,
    pub sink_chan: i32,
    /// The number of the next event.
    pub sequence: u32,
}

/// What a subscription holds.
pub ghost struct Sub {
    pub in_use: bool,
    pub lost_pending: bool,
    pub prefix: Seq<u8>,
    pub sink_chan: i32,
    pub sequence: u32,
}

impl View for SubSlot {
    type V = Sub;

    open spec fn view(&self) -> Sub {
        Sub {
            in_use: self.in_use,
            lost_pending: self.lost_pending,
            prefix: self.prefix@,
            sink_chan: self.sink_chan,
            sequence: self.sequence,
        }
    }
}

/// A free place.
pub open spec fn no_sub() -> Sub {
    Sub { in_use: false, lost_pending: false, prefix: Seq::empty(), sink_chan: -1i32, sequence: 0 }
}

impl SubSlot {
    pub fn empty() -> (r: Self)
        ensures
            r@ == no_sub(),
    {
        SubSlot { in_use: false, lost_pending: false, prefix: Vec::new(), sink_chan: -1, sequence: 0 }
    }

    /// What the subscription watches.
    pub fn prefix(&self) -> (r: &[u8])
        ensures
            r@ == self@.prefix,
    {
        self.prefix.as_slice()
    }
}

impl Sub {
    /// The subscription is to hear of a change of this key.
    pub open spec fn watches(self, key: Seq<u8>) -> bool {
        self.in_use && self.sink_chan >= 0 && self.prefix.is_prefix_of(key)
    }

    /// What is sent next, on a change. `None` where the change cannot be sent.
    pub open spec fn event(self, rev: u64, kind: u8, key: Seq<u8>, value: Seq<u8>) -> Option<Seq<u8>> {
        if self.lost_pending {
            Some(
                loam_change_wire::event_frame(
                    self.sequence,
                    rev,
                    loam_change_wire::KIND_DELETED,
                    Seq::empty(),
                    Seq::empty(),
                ),
            )
        } else if 15 + key.len() + value.len() <= loam_change_wire::REC_MAX {
            Some(loam_change_wire::event_frame(self.sequence, rev, kind, key, value))
        } else {
            None
        }
    }

    /// The subscription once a change could not be sent.
    pub open spec fn unsent(self) -> Sub {
        Sub { lost_pending: true, ..self }
    }

    /// The subscription once an event was offered to its channel.
    pub open spec fn offered(self, taken: bool) -> Sub {
        if taken {
            Sub { lost_pending: false, sequence: self.sequence.wrapping_add(1), ..self }
        } else {
            self.unsent()
        }
    }
}

/// All subscriptions.
pub struct Watchers {
    subs: Vec<SubSlot>,
}

impl View for Watchers {
    type V = Seq<Sub>;

    closed spec fn view(&self) -> Seq<Sub> {
        Seq::new(self.subs@.len(), |i: int| self.subs@[i]@)
    }
}

/// The first free place from `from` on.
pub open spec fn free_place(s: Seq<Sub>, from: int) -> Option<int>
    decreases s.len() - from,
{
    if from < 0 || from >= s.len() {
        None
    } else if !s[from].in_use {
        Some(from)
    } else {
        free_place(s, from + 1)
    }
}

/// The subscriptions from `from` on that are to hear of a change of this key.
pub open spec fn watching(s: Seq<Sub>, key: Seq<u8>, from: int) -> Seq<int>
    decreases s.len() - from,
{
    if from < 0 || from >= s.len() {
        Seq::empty()
    } else if s[from].watches(key) {
        seq![from] + watching(s, key, from + 1)
    } else {
        watching(s, key, from + 1)
    }
}

/// The numbers of a list.
pub open spec fn numbers(v: Seq<usize>) -> Seq<int> {
    Seq::new(v.len(), |i: int| v[i] as int)
}

impl Watchers {
    pub open spec fn wf(&self) -> bool {
        self@.len() == NS_SUB_MAX
    }

    pub fn new() -> (r: Self)
        ensures
            r.wf(),
            r@ == Seq::new(NS_SUB_MAX as nat, |i: int| no_sub()),
    {
        let mut subs: Vec<SubSlot> = Vec::new();
        let mut i: usize = 0;
        while i < NS_SUB_MAX
            invariant
                i <= NS_SUB_MAX,
                subs.len() == i,
                forall|j: int| 0 <= j < i ==> (#[trigger] subs@[j])@ == no_sub(),
            decreases NS_SUB_MAX - i,
        {
            subs.push(SubSlot::empty());
            i += 1;
        }
        let r: Watchers = Watchers { subs };
        assert(r@ =~= Seq::new(NS_SUB_MAX as nat, |i: int| no_sub()));
        r
    }

    /// The subscription at a place.
    pub fn sub(&self, i: usize) -> (r: &SubSlot)
        requires
            i < self@.len(),
        ensures
            r@ == self@[i as int],
    {
        &self.subs[i]
    }

    /// Which subscriptions are to hear of a change of this key.
    pub fn notify_change(&self, key: &[u8]) -> (r: Vec<usize>)
        ensures
            numbers(r@) == watching(self@, key@, 0),
            forall|k: int| 0 <= k < r@.len() ==> (#[trigger] r@[k]) < self@.len(),
    {
        let mut r: Vec<usize> = Vec::new();
        let mut i: usize = 0;
        while i < self.subs.len()
            invariant
                i <= self.subs.len(),
                watching(self@, key@, 0) == numbers(r@) + watching(self@, key@, i as int),
                forall|k: int| 0 <= k < r@.len() ==> (#[trigger] r@[k]) < self@.len(),
            decreases self.subs.len() - i,
        {
            assert(self@[i as int] == self.subs@[i as int]@);
            let ghost before = numbers(r@);
            if self.subs[i].in_use && self.subs[i].sink_chan >= 0 && loam_change_wire::under_prefix(
                key,
                self.subs[i].prefix(),
            ) {
                r.push(i);
                assert(numbers(r@) =~= before.push(i as int));
                assert(before.push(i as int) + watching(self@, key@, i + 1) =~= before + (seq![i as int] + watching(
                    self@,
                    key@,
                    i + 1,
                )));
            }
            i += 1;
        }
        assert(numbers(r@) + Seq::<int>::empty() =~= numbers(r@));
        r
    }

    /// The event to send to a subscription on a change. Where the change cannot be
    /// sent, it is lost, and the subscription remembers that.
    pub fn push_to_sub(&mut self, i: usize, rev: u64, kind: u8, key: &[u8], value: &[u8]) -> (r: Option<Vec<u8>>)
        requires
            i < old(self)@.len(),
        ensures
            match old(self)@[i as int].event(rev, kind, key@, value@) {
                Some(e) => r matches Some(bytes) && bytes@ == e && final(self)@ == old(self)@,
                None => r is None && final(self)@ == old(self)@.update(i as int, old(self)@[i as int].unsent()),
            },
    {
        assert(self@[i as int] == self.subs@[i as int]@);
        let sequence: u32 = self.subs[i].sequence;
        let mut buf: [u8; loam_change_wire::EVENT_MAX] = [0u8; loam_change_wire::EVENT_MAX];
        let ghost before = buf@;
        if self.subs[i].lost_pending {
            proof {
                bytes::lemma_written_front(before, self@[i as int].event(rev, kind, key@, value@).unwrap());
            }
            return match loam_change_wire::encode_lost_event(&mut buf, sequence, rev) {
                Some(n) => Some(bytes::front(buf.as_slice(), n)),
                None => None,
            };
        }
        match loam_change_wire::encode_event(&mut buf, sequence, rev, kind, key, value) {
            Some(n) => {
                proof {
                    bytes::lemma_written_front(before, self@[i as int].event(rev, kind, key@, value@).unwrap());
                }
                Some(bytes::front(buf.as_slice(), n))
            },
            None => {
                self.set_lost(i);
                None
            },
        }
    }

    fn set_lost(&mut self, i: usize)
        requires
            i < old(self)@.len(),
        ensures
            final(self)@ == old(self)@.update(i as int, old(self)@[i as int].unsent()),
    {
        let old_slot: &SubSlot = &self.subs[i];
        let slot: SubSlot = SubSlot {
            in_use: old_slot.in_use,
            lost_pending: true,
            prefix: bytes::to_vec(old_slot.prefix()),
            sink_chan: old_slot.sink_chan,
            sequence: old_slot.sequence,
        };
        self.subs.set(i, slot);
        assert(self@ =~= old(self)@.update(i as int, old(self)@[i as int].unsent()));
    }

    /// Whether the channel took the event that `push_to_sub` made.
    pub fn pushed(&mut self, i: usize, taken: bool)
        requires
            i < old(self)@.len(),
        ensures
            final(self)@ == old(self)@.update(i as int, old(self)@[i as int].offered(taken)),
    {
        if !taken {
            self.set_lost(i);
            return;
        }
        let old_slot: &SubSlot = &self.subs[i];
        let slot: SubSlot = SubSlot {
            in_use: old_slot.in_use,
            lost_pending: false,
            prefix: bytes::to_vec(old_slot.prefix()),
            sink_chan: old_slot.sink_chan,
            sequence: old_slot.sequence.wrapping_add(1),
        };
        self.subs.set(i, slot);
        assert(self@ =~= old(self)@.update(i as int, old(self)@[i as int].offered(taken)));
    }

    /// Begin a subscription in the first free place.
    pub fn subscribe(&mut self, prefix: &[u8], sink_chan: i32) -> (r: Option<usize>)
        ensures
            match free_place(old(self)@, 0) {
                Some(i) => r == Some(i as usize) && 0 <= i < old(self)@.len() && final(self)@ == old(self)@.update(
                    i,
                    Sub { in_use: true, lost_pending: false, prefix: prefix@, sink_chan, sequence: 0 },
                ),
                None => r is None && final(self)@ == old(self)@,
            },
    {
        let mut i: usize = 0;
        while i < self.subs.len()
            invariant
                i <= self.subs.len(),
                self@ == old(self)@,
                free_place(self@, 0) == free_place(self@, i as int),
            decreases self.subs.len() - i,
        {
            assert(self@[i as int] == self.subs@[i as int]@);
            if !self.subs[i].in_use {
                let slot: SubSlot = SubSlot {
                    in_use: true,
                    lost_pending: false,
                    prefix: bytes::to_vec(prefix),
                    sink_chan,
                    sequence: 0,
                };
                let ghost sub = slot@;
                self.subs.set(i, slot);
                assert(self@ =~= old(self)@.update(i as int, sub));
                return Some(i);
            }
            i += 1;
        }
        None
    }

    /// End a subscription. Returns whether there was one.
    pub fn close(&mut self, i: usize) -> (r: bool)
        ensures
            r == (i < old(self)@.len() && old(self)@[i as int].in_use),
            final(self)@ == if r {
                old(self)@.update(
                    i as int,
                    Sub { in_use: false, lost_pending: false, sink_chan: -1i32, ..old(self)@[i as int] },
                )
            } else {
                old(self)@
            },
    {
        if i >= self.subs.len() {
            return false;
        }
        assert(self@[i as int] == self.subs@[i as int]@);
        if !self.subs[i].in_use {
            return false;
        }
        let old_slot: &SubSlot = &self.subs[i];
        let slot: SubSlot = SubSlot {
            in_use: false,
            lost_pending: false,
            prefix: bytes::to_vec(old_slot.prefix()),
            sink_chan: -1,
            sequence: old_slot.sequence,
        };
        let ghost sub = slot@;
        self.subs.set(i, slot);
        assert(self@ =~= old(self)@.update(i as int, sub));
        true
    }
}

/// A loss is told: after an event that was not taken, or a change that could not be
/// sent, every further change sends the sign of loss, until that is taken.
pub proof fn lemma_loss_is_told(s: Sub, rev: u64, kind: u8, key: Seq<u8>, value: Seq<u8>)
    ensures
        s.offered(false).event(rev, kind, key, value) == s.unsent().event(rev, kind, key, value),
        s.unsent().event(rev, kind, key, value) == Some(
            loam_change_wire::event_frame(
                s.sequence,
                rev,
                loam_change_wire::KIND_DELETED,
                Seq::empty(),
                Seq::empty(),
            ),
        ),
        s.unsent().offered(false) == s.unsent(),
        !s.unsent().offered(true).lost_pending,
{
}

/// The events that a subscriber gets are numbered without gaps: a number is used up
/// exactly when its event is taken.
pub proof fn lemma_numbers_have_no_gaps(s: Sub, taken: bool)
    ensures
        s.offered(taken).sequence == if taken {
            s.sequence.wrapping_add(1)
        } else {
            s.sequence
        },
        s.unsent().sequence == s.sequence,
{
}

/// Every change of a key within the limits can be sent.
pub proof fn lemma_change_can_be_sent(s: Sub, rev: u64, kind: u8, key: Seq<u8>, value: Seq<u8>)
    requires
        key.len() <= loam_limits::MAX_PATH,
        value.len() <= loam_limits::MAX_OBJECT_ID,
    ensures
        s.event(rev, kind, key, value) is Some,
{
}

} // verus!
