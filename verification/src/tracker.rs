//! Book-keeping of the delay tests: which payloads are still awaited, when they
//! were sent, and which count as lost.
use vstd::prelude::*;

verus! {

/// How many sequence numbers there are: one slot each.
pub const SEQ_SPACE: usize = 65536;
/// Nanoseconds in a millisecond.
pub const NS_PER_MS: u64 = 1_000_000;

/// A slot of the delay test: the send time of the payload, and whether it is
/// still awaited.
pub open spec fn slot_expired(slot: (u64, bool), deadline: u64) -> bool {
    slot.1 && slot.0 < deadline
}

/// How many slots of `s` are awaited and were sent before `deadline`.
pub open spec fn count_expired(s: Seq<(u64, bool)>, deadline: u64) -> nat
    decreases s.len(),
{
    if s.len() == 0 {
        0
    } else {
        count_expired(s.drop_last(), deadline) + if slot_expired(s.last(), deadline) {
            1nat
        } else {
            0nat
        }
    }
}

/// The slots of `s` after those awaited and sent before `deadline` are given up.
pub open spec fn expire_slots(s: Seq<(u64, bool)>, deadline: u64) -> Seq<(u64, bool)> {
    s.map_values(|slot: (u64, bool)| (slot.0, slot.1 && !(slot.0 < deadline)))
}

/// How many slots of `s` are awaited.
pub open spec fn count_awaited(s: Seq<(u64, bool)>) -> nat
    decreases s.len(),
{
    if s.len() == 0 {
        0
    } else {
        count_awaited(s.drop_last()) + if s.last().1 {
            1nat
        } else {
            0nat
        }
    }
}

/// The slots of `s` with none awaited any more.
pub open spec fn release_all(s: Seq<(u64, bool)>) -> Seq<(u64, bool)> {
    s.map_values(|slot: (u64, bool)| (slot.0, false))
}

/// Whether some slot of `s` is awaited.
pub open spec fn any_awaited(s: Seq<(u64, bool)>) -> bool {
    exists|i: int| 0 <= i < s.len() && #[trigger] s[i].1
}

/// The payloads of the one-way delay test that are still awaited.
pub struct DelayTracker {
    slots: Vec<(u64, bool)>,
    lost: u64,
}

impl DelayTracker {
    /// For each sequence number: when its payload was last sent, and whether it
    /// is still awaited.
    pub closed spec fn spec_slots(&self) -> Seq<(u64, bool)> {
        self.slots@
    }

    /// How many payloads were given up as lost.
    pub closed spec fn spec_lost(&self) -> u64 {
        self.lost
    }

    /// Well-formedness: one slot per sequence number.
    pub open spec fn wf(&self) -> bool {
        self.spec_slots().len() == SEQ_SPACE
    }

    /// No payload awaited and none lost.
    pub fn new() -> (t: DelayTracker)
        ensures
            t.wf(),
            t.spec_lost() == 0,
            forall|i: int| 0 <= i < SEQ_SPACE ==> #[trigger] t.spec_slots()[i] == (0u64, false),
    {
        let mut slots: Vec<(u64, bool)> = Vec::with_capacity(SEQ_SPACE);
        let mut i: usize = 0;
        while i < SEQ_SPACE
            invariant
                i <= SEQ_SPACE,
                slots@.len() == i,
                forall|k: int| 0 <= k < i ==> #[trigger] slots@[k] == (0u64, false),
            decreases SEQ_SPACE - i,
        {
            slots.push((0u64, false));
            i = i + 1;
        }
        DelayTracker { slots, lost: 0 }
    }

    /// How many payloads were given up as lost.
    pub fn lost(&self) -> (n: u64)
        ensures
            n == self.spec_lost(),
    {
        self.lost
    }

    /// Notes that the payload `seq` was sent at `send_ns` and is now awaited.
    pub fn record_send(&mut self, seq: u16, send_ns: u64)
        requires
            old(self).wf(),
        ensures
            final(self).wf(),
            final(self).spec_slots() == old(self).spec_slots().update(seq as int, (send_ns, true)),
            final(self).spec_lost() == old(self).spec_lost(),
    {
        self.slots[seq as usize] = (send_ns, true);
    }

    /// When the payload `seq` is awaited, the time it was sent.
    pub fn sent_at(&self, seq: u16) -> (t: Option<u64>)
        requires
            self.wf(),
        ensures
            t == if self.spec_slots()[seq as int].1 {
                Some(self.spec_slots()[seq as int].0)
            } else {
                None
            },
    {
        let slot = self.slots[seq as usize];
        if slot.1 {
            Some(slot.0)
        } else {
            None
        }
    }

    /// The payload `seq` arrived at `recv_ns`: when it was awaited it no longer
    /// is, and its delay in nanoseconds is returned.
    pub fn on_receive(&mut self, seq: u16, recv_ns: u64) -> (delay_ns: Option<u64>)
        requires
            old(self).wf(),
            old(self).spec_slots()[seq as int].1 ==> old(self).spec_slots()[seq as int].0 <= recv_ns,
        ensures
            final(self).wf(),
            final(self).spec_lost() == old(self).spec_lost(),
            if old(self).spec_slots()[seq as int].1 {
                &&& delay_ns == Some((recv_ns - old(self).spec_slots()[seq as int].0) as u64)
                &&& final(self).spec_slots() == old(self).spec_slots().update(
                    seq as int,
                    (old(self).spec_slots()[seq as int].0, false),
                )
            } else {
                &&& delay_ns is None
                &&& final(self).spec_slots() == old(self).spec_slots()
            },
    {
        let slot = self.slots[seq as usize];
        if slot.1 {
            self.slots[seq as usize] = (slot.0, false);
            Some(recv_ns - slot.0)
        } else {
            None
        }
    }

    /// Gives up every payload awaited and sent before `deadline_ns`: each counts
    /// as lost.  Returns how many were given up.
    pub fn expire_before(&mut self, deadline_ns: u64) -> (n: u64)
        requires
            old(self).wf(),
            old(self).spec_lost() + count_expired(old(self).spec_slots(), deadline_ns) <= u64::MAX,
        ensures
            final(self).wf(),
            n == count_expired(old(self).spec_slots(), deadline_ns),
            final(self).spec_lost() == old(self).spec_lost() + n,
            final(self).spec_slots() == expire_slots(old(self).spec_slots(), deadline_ns),
    {
        let ghost orig = self.slots@;
        let mut n: u64 = 0;
        let mut i: usize = 0;
        while i < SEQ_SPACE
            invariant
                i <= SEQ_SPACE,
                orig.len() == SEQ_SPACE,
                self.slots@.len() == SEQ_SPACE,
                self.lost == old(self).spec_lost(),
                old(self).spec_lost() + count_expired(orig, deadline_ns) <= u64::MAX,
                n == count_expired(orig.take(i as int), deadline_ns),
                n <= i,
                forall|k: int| 0 <= k < i ==> #[trigger] self.slots@[k] == expire_slots(orig, deadline_ns)[k],
                forall|k: int| i <= k < SEQ_SPACE ==> #[trigger] self.slots@[k] == orig[k],
            decreases SEQ_SPACE - i,
        {
            assert(orig.take(i + 1).drop_last() =~= orig.take(i as int));
            let slot = self.slots[i];
            if slot.1 && slot.0 < deadline_ns {
                self.slots[i] = (slot.0, false);
                n = n + 1;
            }
            i = i + 1;
        }
        assert(orig.take(SEQ_SPACE as int) =~= orig);
        assert(self.slots@ =~= expire_slots(orig, deadline_ns));
        self.lost = self.lost + n;
        n
    }

    /// Gives up every payload still awaited.  Returns how many were given up.
    pub fn expire_all(&mut self) -> (n: u64)
        requires
            old(self).wf(),
            old(self).spec_lost() + count_awaited(old(self).spec_slots()) <= u64::MAX,
        ensures
            final(self).wf(),
            n == count_awaited(old(self).spec_slots()),
            final(self).spec_lost() == old(self).spec_lost() + n,
            final(self).spec_slots() == release_all(old(self).spec_slots()),
    {
        let ghost orig = self.slots@;
        let mut n: u64 = 0;
        let mut i: usize = 0;
        while i < SEQ_SPACE
            invariant
                i <= SEQ_SPACE,
                orig.len() == SEQ_SPACE,
                self.slots@.len() == SEQ_SPACE,
                self.lost == old(self).spec_lost(),
                old(self).spec_lost() + count_awaited(orig) <= u64::MAX,
                n == count_awaited(orig.take(i as int)),
                n <= i,
                forall|k: int| 0 <= k < i ==> #[trigger] self.slots@[k] == release_all(orig)[k],
                forall|k: int| i <= k < SEQ_SPACE ==> #[trigger] self.slots@[k] == orig[k],
            decreases SEQ_SPACE - i,
        {
            assert(orig.take(i + 1).drop_last() =~= orig.take(i as int));
            let slot = self.slots[i];
            if slot.1 {
                self.slots[i] = (slot.0, false);
                n = n + 1;
            }
            i = i + 1;
        }
        assert(orig.take(SEQ_SPACE as int) =~= orig);
        assert(self.slots@ =~= release_all(orig));
        self.lost = self.lost + n;
        n
    }

    /// How many payloads are awaited and were sent before `deadline_ns`.
    pub fn count_expired_before(&self, deadline_ns: u64) -> (n: u64)
        requires
            self.wf(),
        ensures
            n == count_expired(self.spec_slots(), deadline_ns),
    {
        let ghost orig = self.slots@;
        let mut n: u64 = 0;
        let mut i: usize = 0;
        while i < SEQ_SPACE
            invariant
                i <= SEQ_SPACE,
                orig == self.slots@,
                orig.len() == SEQ_SPACE,
                n == count_expired(orig.take(i as int), deadline_ns),
                n <= i,
            decreases SEQ_SPACE - i,
        {
            assert(orig.take(i + 1).drop_last() =~= orig.take(i as int));
            let slot = self.slots[i];
            if slot.1 && slot.0 < deadline_ns {
                n = n + 1;
            }
            i = i + 1;
        }
        assert(orig.take(SEQ_SPACE as int) =~= orig);
        n
    }

    /// How many payloads are awaited.
    pub fn count_pending(&self) -> (n: u64)
        requires
            self.wf(),
        ensures
            n == count_awaited(self.spec_slots()),
    {
        let ghost orig = self.slots@;
        let mut n: u64 = 0;
        let mut i: usize = 0;
        while i < SEQ_SPACE
            invariant
                i <= SEQ_SPACE,
                orig == self.slots@,
                orig.len() == SEQ_SPACE,
                n == count_awaited(orig.take(i as int)),
                n <= i,
            decreases SEQ_SPACE - i,
        {
            assert(orig.take(i + 1).drop_last() =~= orig.take(i as int));
            if self.slots[i].1 {
                n = n + 1;
            }
            i = i + 1;
        }
        assert(orig.take(SEQ_SPACE as int) =~= orig);
        n
    }

    /// Whether some payload is still awaited.
    pub fn has_pending(&self) -> (b: bool)
        requires
            self.wf(),
        ensures
            b == any_awaited(self.spec_slots()),
    {
        let mut i: usize = 0;
        while i < SEQ_SPACE
            invariant
                i <= SEQ_SPACE,
                self.slots@.len() == SEQ_SPACE,
                forall|k: int| 0 <= k < i ==> !(#[trigger] self.slots@[k]).1,
            decreases SEQ_SPACE - i,
        {
            if self.slots[i].1 {
                assert(self.slots@[i as int].1);
                return true;
            }
            i = i + 1;
        }
        false
    }
}

/// The time before which an awaited payload counts as lost: `timeout_ms`
/// before `now_ns`, or zero early on.
pub fn loss_deadline(now_ns: u64, timeout_ms: u64) -> (deadline: u64)
    requires
        timeout_ms * NS_PER_MS <= u64::MAX,
    ensures
        deadline == if now_ns >= timeout_ms * NS_PER_MS {
            (now_ns - timeout_ms * NS_PER_MS) as u64
        } else {
            0
        },
{
    now_ns.saturating_sub(timeout_ms * NS_PER_MS)
}

/// When the payload after one due at `next_send_ns` is due: one interval later,
/// or one interval after `now_ns` when the sender has fallen behind.
pub fn next_send_time(next_send_ns: u64, interval_ns: u64, now_ns: u64) -> (next: u64)
    requires
        next_send_ns + interval_ns <= u64::MAX,
        now_ns + interval_ns <= u64::MAX,
    ensures
        next == if next_send_ns + interval_ns < now_ns {
            now_ns + interval_ns
        } else {
            next_send_ns + interval_ns
        },
{
    let next = next_send_ns + interval_ns;
    if next < now_ns {
        now_ns + interval_ns
    } else {
        next
    }
}

/// Whether another payload may be sent when `seq` payloads were sent out of
/// `count` (0 asks for no limit).
pub fn may_send(count: u16, seq: u16) -> (b: bool)
    ensures
        b == (count == 0 || seq < count),
{
    count == 0 || seq < count
}

/// How the one-way delay test stands once its payloads were sent.
#[derive(Debug, Clone, Copy, PartialEq, Eq, Structural)]
pub enum DelayTestEnd {
    /// Payloads are still to be sent or awaited.
    Running,
    /// Every payload came back: the test is over.
    Complete,
    /// Waiting took too long: what is still awaited is lost and the test is over.
    TimedOut,
}

/// Whether the one-way delay test of `count` payloads (0 asks for no limit),
/// having sent `seq`, is over at `now_ns`: once all are sent, it ends when none
/// is awaited, or when `count` intervals and the timeout have passed.
pub fn delay_test_end(count: u16, seq: u16, pending: bool, now_ns: u64, interval_ns: u64, timeout_ms: u64)
    -> (end: DelayTestEnd)
    requires
        count * interval_ns + timeout_ms * NS_PER_MS <= u64::MAX,
    ensures
        end == if count > 0 && seq >= count {
            if !pending {
                DelayTestEnd::Complete
            } else if now_ns > count * interval_ns + timeout_ms * NS_PER_MS {
                DelayTestEnd::TimedOut
            } else {
                DelayTestEnd::Running
            }
        } else {
            DelayTestEnd::Running
        },
{
    if count > 0 && seq >= count {
        if !pending {
            DelayTestEnd::Complete
        } else {
            assert(0 <= count * interval_ns) by (nonlinear_arith);
            if now_ns > (count as u64) * interval_ns + timeout_ms * NS_PER_MS {
                DelayTestEnd::TimedOut
            } else {
                DelayTestEnd::Running
            }
        }
    } else {
        DelayTestEnd::Running
    }
}

/// How long the bidirectional test waits for a round trip before giving it up.
pub const BIDI_LOSS_AFTER_NS: u64 = 5_000_000_000;
/// How long after its last send interval the bidirectional test ends at the latest.
pub const BIDI_GIVE_UP_AFTER_NS: u64 = 10_000_000_000;

/// The time before which a round trip of the bidirectional test is given up:
/// [`BIDI_LOSS_AFTER_NS`] before `now_ns`, or zero early on.
pub fn bidi_loss_deadline(now_ns: u64) -> (deadline: u64)
    ensures
        deadline == if now_ns >= BIDI_LOSS_AFTER_NS {
            (now_ns - BIDI_LOSS_AFTER_NS) as u64
        } else {
            0
        },
{
    now_ns.saturating_sub(BIDI_LOSS_AFTER_NS)
}

/// Whether the bidirectional test of `count` payloads (0 asks for no limit),
/// having sent `seq`, is over at `now_ns`: once all are sent, when no sequence
/// number is waiting any more, or when `count` intervals and
/// [`BIDI_GIVE_UP_AFTER_NS`] have passed.
pub fn bidi_test_over(count: u16, seq: u16, none_waiting: bool, now_ns: u64, interval_ns: u64) -> (over: bool)
    requires
        count * interval_ns + BIDI_GIVE_UP_AFTER_NS <= u64::MAX,
    ensures
        over == (count > 0 && seq >= count && (none_waiting || now_ns > count * interval_ns
            + BIDI_GIVE_UP_AFTER_NS)),
{
    if count > 0 && seq >= count {
        if none_waiting {
            true
        } else {
            assert(0 <= count * interval_ns) by (nonlinear_arith);
            now_ns > (count as u64) * interval_ns + BIDI_GIVE_UP_AFTER_NS
        }
    } else {
        false
    }
}

/// What the bidirectional test knows of a payload: when the master sent it, when
/// the slave sent its acknowledgement, and whether its round trip is awaited.
#[derive(Debug, Clone, Copy, PartialEq, Eq, Structural)]
pub struct BidiSlot {
    pub ms_send_ns: u64,
    pub sm_send_ns: u64,
    pub active: bool,
}

/// The slot `slot` with its round trip no longer awaited.
pub open spec fn settled(slot: BidiSlot) -> BidiSlot {
    BidiSlot { active: false, ..slot }
}

/// The test that keeps the sequence numbers whose payload was not sent before
/// `deadline`.
pub open spec fn sent_not_before(slots: Seq<BidiSlot>, deadline: u64) -> spec_fn(u16) -> bool {
    |s: u16| !(slots[s as int].ms_send_ns < deadline)
}

/// How many of the sequence numbers `seqs` had their payload sent before `deadline`.
pub open spec fn count_sent_before(seqs: Seq<u16>, slots: Seq<BidiSlot>, deadline: u64) -> int {
    seqs.len() - seqs.filter(sent_not_before(slots, deadline)).len()
}

/// The payloads of the bidirectional test: a slot per sequence number, the
/// sequence numbers sent and not yet given up, and how many were given up.
pub struct BidiTracker {
    slots: Vec<BidiSlot>,
    active_seqs: Vec<u16>,
    lost: u64,
}

impl BidiTracker {
    /// A slot per sequence number.
    pub closed spec fn spec_slots(&self) -> Seq<BidiSlot> {
        self.slots@
    }

    /// The sequence numbers sent and not yet given up, in the order sent.
    pub closed spec fn spec_active_seqs(&self) -> Seq<u16> {
        self.active_seqs@
    }

    /// How many sequence numbers were given up.
    pub closed spec fn spec_lost(&self) -> u64 {
        self.lost
    }

    /// Well-formedness: one slot per sequence number.
    pub open spec fn wf(&self) -> bool {
        self.spec_slots().len() == SEQ_SPACE
    }

    /// Nothing sent, nothing given up.
    pub fn new() -> (t: BidiTracker)
        ensures
            t.wf(),
            t.spec_lost() == 0,
            t.spec_active_seqs() == Seq::<u16>::empty(),
            forall|i: int| 0 <= i < SEQ_SPACE ==> #[trigger] t.spec_slots()[i] == (BidiSlot {
                ms_send_ns: 0,
                sm_send_ns: 0,
                active: false,
            }),
    {
        let mut slots: Vec<BidiSlot> = Vec::with_capacity(SEQ_SPACE);
        let mut i: usize = 0;
        while i < SEQ_SPACE
            invariant
                i <= SEQ_SPACE,
                slots@.len() == i,
                forall|k: int| 0 <= k < i ==> #[trigger] slots@[k] == (BidiSlot {
                    ms_send_ns: 0,
                    sm_send_ns: 0,
                    active: false,
                }),
            decreases SEQ_SPACE - i,
        {
            slots.push(BidiSlot { ms_send_ns: 0, sm_send_ns: 0, active: false });
            i = i + 1;
        }
        BidiTracker { slots, active_seqs: Vec::new(), lost: 0 }
    }

    /// How many sequence numbers were given up.
    pub fn lost(&self) -> (n: u64)
        ensures
            n == self.spec_lost(),
    {
        self.lost
    }

    /// Whether every sequence number sent was given up.
    pub fn no_active(&self) -> (b: bool)
        ensures
            b == (self.spec_active_seqs().len() == 0),
    {
        self.active_seqs.len() == 0
    }

    /// How many of the sequence numbers sent and not yet given up had their
    /// payload sent before `deadline_ns`.
    pub fn count_expired_before(&self, deadline_ns: u64) -> (n: u64)
        requires
            self.wf(),
        ensures
            n == count_sent_before(self.spec_active_seqs(), self.spec_slots(), deadline_ns),
    {
        let ghost seqs = self.active_seqs@;
        let ghost keep = sent_not_before(self.slots@, deadline_ns);
        let mut n: u64 = 0;
        let mut i: usize = 0;
        while i < self.active_seqs.len()
            invariant
                i <= seqs.len(),
                seqs == self.active_seqs@,
                self.slots@.len() == SEQ_SPACE,
                keep == sent_not_before(self.slots@, deadline_ns),
                n == i - seqs.take(i as int).filter(keep).len(),
                n <= i,
            decreases seqs.len() - i,
        {
            let s = self.active_seqs[i];
            assert(seqs.take(i + 1) =~= seqs.take(i as int).push(s));
            proof {
                seqs.take(i as int).lemma_filter_push(s, keep);
                seqs.take(i as int).filter(keep).lemma_filter_len(keep);
            }
            if self.slots[s as usize].ms_send_ns < deadline_ns {
                n = n + 1;
            }
            i = i + 1;
        }
        assert(seqs.take(seqs.len() as int) =~= seqs);
        n
    }

    /// The master sent the payload `seq` at `send_ns`: its round trip is awaited.
    pub fn record_send(&mut self, seq: u16, send_ns: u64)
        requires
            old(self).wf(),
        ensures
            final(self).wf(),
            final(self).spec_slots() == old(self).spec_slots().update(
                seq as int,
                BidiSlot { ms_send_ns: send_ns, active: true, ..old(self).spec_slots()[seq as int] },
            ),
            final(self).spec_active_seqs() == old(self).spec_active_seqs().push(seq),
            final(self).spec_lost() == old(self).spec_lost(),
    {
        let mut slot = self.slots[seq as usize];
        slot.ms_send_ns = send_ns;
        slot.active = true;
        self.slots[seq as usize] = slot;
        self.active_seqs.push(seq);
    }

    /// The slot of `seq`.
    pub fn slot(&self, seq: u16) -> (s: BidiSlot)
        requires
            self.wf(),
        ensures
            s == self.spec_slots()[seq as int],
    {
        self.slots[seq as usize]
    }

    /// The slave received the payload `seq` at `recv_ns`: when its round trip is
    /// awaited, returns the master-to-slave delay in nanoseconds.
    pub fn on_slave_receive(&self, seq: u16, recv_ns: u64) -> (delay_ns: Option<u64>)
        requires
            self.wf(),
            self.spec_slots()[seq as int].active ==> self.spec_slots()[seq as int].ms_send_ns <= recv_ns,
        ensures
            delay_ns == if self.spec_slots()[seq as int].active {
                Some((recv_ns - self.spec_slots()[seq as int].ms_send_ns) as u64)
            } else {
                None
            },
    {
        let slot = self.slots[seq as usize];
        if slot.active {
            Some(recv_ns - slot.ms_send_ns)
        } else {
            None
        }
    }

    /// The slave sent the acknowledgement of `seq` at `send_ns`.
    pub fn record_ack_sent(&mut self, seq: u16, send_ns: u64)
        requires
            old(self).wf(),
        ensures
            final(self).wf(),
            final(self).spec_slots() == old(self).spec_slots().update(
                seq as int,
                BidiSlot { sm_send_ns: send_ns, ..old(self).spec_slots()[seq as int] },
            ),
            final(self).spec_active_seqs() == old(self).spec_active_seqs(),
            final(self).spec_lost() == old(self).spec_lost(),
    {
        let mut slot = self.slots[seq as usize];
        slot.sm_send_ns = send_ns;
        self.slots[seq as usize] = slot;
    }

    /// The master received the acknowledgement of `seq` at `recv_ns`: when its
    /// round trip was awaited it no longer is, and the slave-to-master delay and
    /// the round-trip time, in nanoseconds, are returned.
    pub fn on_master_receive(&mut self, seq: u16, recv_ns: u64) -> (delays: Option<(u64, u64)>)
        requires
            old(self).wf(),
            old(self).spec_slots()[seq as int].active ==> old(self).spec_slots()[seq as int].sm_send_ns
                <= recv_ns && old(self).spec_slots()[seq as int].ms_send_ns <= recv_ns,
        ensures
            final(self).wf(),
            final(self).spec_active_seqs() == old(self).spec_active_seqs(),
            final(self).spec_lost() == old(self).spec_lost(),
            if old(self).spec_slots()[seq as int].active {
                &&& delays == Some(
                    (
                        (recv_ns - old(self).spec_slots()[seq as int].sm_send_ns) as u64,
                        (recv_ns - old(self).spec_slots()[seq as int].ms_send_ns) as u64,
                    ),
                )
                &&& final(self).spec_slots() == old(self).spec_slots().update(
                    seq as int,
                    settled(old(self).spec_slots()[seq as int]),
                )
            } else {
                &&& delays is None
                &&& final(self).spec_slots() == old(self).spec_slots()
            },
    {
        let mut slot = self.slots[seq as usize];
        if slot.active {
            let d = (recv_ns - slot.sm_send_ns, recv_ns - slot.ms_send_ns);
            slot.active = false;
            self.slots[seq as usize] = slot;
            Some(d)
        } else {
            None
        }
    }

    /// Gives up every sequence number sent before `deadline_ns`: it leaves the
    /// list of those sent, its round trip is no longer awaited, and it counts as
    /// lost.  Returns how many were given up.
    pub fn expire_before(&mut self, deadline_ns: u64) -> (n: u64)
        requires
            old(self).wf(),
            old(self).spec_lost() + count_sent_before(old(self).spec_active_seqs(), old(self).spec_slots(),
                deadline_ns) <= u64::MAX,
        ensures
            final(self).wf(),
            final(self).spec_active_seqs() == old(self).spec_active_seqs().filter(
                |s: u16| !(old(self).spec_slots()[s as int].ms_send_ns < deadline_ns),
            ),
            n == old(self).spec_active_seqs().len() - final(self).spec_active_seqs().len(),
            final(self).spec_lost() == old(self).spec_lost() + n,
            forall|k: int|
                0 <= k < SEQ_SPACE ==> #[trigger] final(self).spec_slots()[k] == if old(
                    self,
                ).spec_active_seqs().contains(k as u16) && old(self).spec_slots()[k].ms_send_ns
                    < deadline_ns {
                    settled(old(self).spec_slots()[k])
                } else {
                    old(self).spec_slots()[k]
                },
    {
        let ghost orig_slots = self.slots@;
        let ghost orig_seqs = self.active_seqs@;
        let ghost keep = |s: u16| !(orig_slots[s as int].ms_send_ns < deadline_ns);
        let mut kept: Vec<u16> = Vec::new();
        let mut n: u64 = 0;
        let mut i: usize = 0;
        while i < self.active_seqs.len()
            invariant
                i <= orig_seqs.len(),
                self.active_seqs@ == orig_seqs,
                self.slots@.len() == SEQ_SPACE,
                orig_slots.len() == SEQ_SPACE,
                self.lost == old(self).spec_lost(),
                old(self).spec_lost() + count_sent_before(orig_seqs, orig_slots, deadline_ns) <= u64::MAX,
                keep == (|s: u16| !(orig_slots[s as int].ms_send_ns < deadline_ns)),
                kept@ == orig_seqs.take(i as int).filter(keep),
                n == i - kept@.len(),
                n <= i,
                forall|k: int|
                    0 <= k < SEQ_SPACE ==> #[trigger] self.slots@[k] == if orig_seqs.take(i as int).contains(
                        k as u16,
                    ) && orig_slots[k].ms_send_ns < deadline_ns {
                        settled(orig_slots[k])
                    } else {
                        orig_slots[k]
                    },
            decreases orig_seqs.len() - i,
        {
            let s = self.active_seqs[i];
            assert(orig_seqs.take(i + 1) =~= orig_seqs.take(i as int).push(s));
            proof {
                orig_seqs.take(i as int).lemma_filter_push(s, keep);
                orig_seqs.take(i as int).filter(keep).lemma_filter_len(keep);
            }
            let slot = self.slots[s as usize];
            if slot.ms_send_ns < deadline_ns {
                let ghost before = self.slots@;
                self.slots[s as usize] = BidiSlot { active: false, ..slot };
                n = n + 1;
                assert forall|k: int| 0 <= k < SEQ_SPACE implies #[trigger] self.slots@[k] == if orig_seqs.take(
                    i + 1,
                ).contains(k as u16) && orig_slots[k].ms_send_ns < deadline_ns {
                    settled(orig_slots[k])
                } else {
                    orig_slots[k]
                } by {
                    if k == s as int {
                        assert(orig_seqs.take(i + 1)[i as int] == s);
                    } else {
                        if orig_seqs.take(i + 1).contains(k as u16) {
                            let j = choose|j: int| 0 <= j < i + 1 && #[trigger] orig_seqs.take(i + 1)[j] == k as u16;
                            assert(orig_seqs.take(i as int)[j] == k as u16);
                        }
                    }
                }
            } else {
                kept.push(s);
                assert forall|k: int| 0 <= k < SEQ_SPACE implies #[trigger] self.slots@[k] == if orig_seqs.take(
                    i + 1,
                ).contains(k as u16) && orig_slots[k].ms_send_ns < deadline_ns {
                    settled(orig_slots[k])
                } else {
                    orig_slots[k]
                } by {
                    if k != s as int && orig_seqs.take(i + 1).contains(k as u16) {
                        let j = choose|j: int| 0 <= j < i + 1 && #[trigger] orig_seqs.take(i + 1)[j] == k as u16;
                        assert(orig_seqs.take(i as int)[j] == k as u16);
                    }
                }
            }
            i = i + 1;
        }
        assert(orig_seqs.take(orig_seqs.len() as int) =~= orig_seqs);
        assert(keep == sent_not_before(orig_slots, deadline_ns));
        self.active_seqs = kept;
        self.lost = self.lost + n;
        n
    }
}

} // verus!
