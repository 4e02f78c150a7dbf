//! The broadcast fabric: one shared channel, one bounded backlog per
//! subscriber.
//!
//! Publishing appends the envelope to every subscriber's backlog. A full
//! backlog drops its oldest envelope and counts the loss; the subscriber
//! is told the count on its next receive and carries on. A publish with
//! no subscribers fails.

use vstd::prelude::*;
use crate::db::{BroadcastMessage, BroadcastMessageV};

verus! {

/// What a backlog holds after an envelope arrives: the envelope appended,
/// behind the oldest one when the backlog was full.
pub open spec fn arrived(
    q: Seq<BroadcastMessageV>,
    capacity: int,
    e: BroadcastMessageV,
) -> Seq<BroadcastMessageV> {
    if q.len() < capacity {
        q.push(e)
    } else {
        q.drop_first().push(e)
    }
}

/// One subscriber's bounded backlog of envelopes, oldest first.
pub struct Backlog {
    items: Vec<BroadcastMessage>,
    capacity: usize,
    lagged: u64,
}

/// What one receive returned.
#[derive(Debug)]
pub enum RecvOutcome {
    /// The oldest queued envelope.
    Envelope(BroadcastMessage),
    /// How many envelopes were dropped since the last receive; the
    /// subscriber keeps its place in the queue.
    Lagged(u64),
    /// Nothing is queued.
    Empty,
}

/// Publishing failed.
#[derive(Clone, Copy, Debug, PartialEq, Eq, Structural)]
pub enum Error {
    /// No subscriber exists to receive the envelope.
    NoSubscribers,
}

impl Backlog {
    /// The backlog never holds more than its capacity, which is at least one.
    pub closed spec fn wf(&self) -> bool {
        1 <= self.capacity && self.items@.len() <= self.capacity
    }

    /// The queued envelopes, oldest first.
    pub closed spec fn queue(&self) -> Seq<BroadcastMessageV> {
        Seq::new(self.items@.len(), |i: int| self.items@[i]@)
    }

    /// The bound the backlog was made with.
    pub closed spec fn cap(&self) -> int {
        self.capacity as int
    }

    /// How many envelopes have been dropped and not yet reported.
    pub closed spec fn lag(&self) -> u64 {
        self.lagged
    }

    /// An empty backlog with the given bound.
    pub fn new(capacity: usize) -> (r: Backlog)
        requires
            capacity >= 1,
        ensures
            r.wf(),
            r.queue() == Seq::<BroadcastMessageV>::empty(),
            r.cap() == capacity,
            r.lag() == 0,
    {
        let r = Backlog { items: Vec::new(), capacity, lagged: 0 };
        proof {
            assert(r.queue() =~= Seq::<BroadcastMessageV>::empty());
        }
        r
    }

    /// Take one envelope in.
    ///
    /// With room, the envelope is queued behind the others and nothing is
    /// lost; full, the oldest envelope leaves and the loss is counted.
    pub fn push(&mut self, envelope: BroadcastMessage)
        requires
            old(self).wf(),
        ensures
            final(self).wf(),
            final(self).cap() == old(self).cap(),
            final(self).queue() == arrived(old(self).queue(), old(self).cap(), envelope@),
            old(self).queue().len() < old(self).cap() ==> final(self).lag() == old(self).lag(),
            old(self).queue().len() >= old(self).cap() ==> final(self).lag() as int
                == if old(self).lag() == u64::MAX { u64::MAX as int } else {
                    old(self).lag() + 1
                },
    {
        let ghost old_q = self.queue();
        if self.items.len() >= self.capacity {
            self.items.remove(0);
            self.lagged = if self.lagged == u64::MAX {
                u64::MAX
            } else {
                self.lagged + 1
            };
            proof {
                assert(self.queue() =~= old_q.drop_first());
            }
        }
        let ghost mid_q = self.queue();
        self.items.push(envelope);
        proof {
            assert(self.queue() =~= mid_q.push(envelope@));
        }
    }

    /// Hand out what comes next: first any loss count, then the oldest
    /// envelope, else nothing.
    pub fn recv(&mut self) -> (r: RecvOutcome)
        requires
            old(self).wf(),
        ensures
            final(self).wf(),
            final(self).cap() == old(self).cap(),
            match r {
                RecvOutcome::Lagged(n) => n == old(self).lag() && n > 0
                    && final(self).lag() == 0 && final(self).queue() == old(self).queue(),
                RecvOutcome::Envelope(e) => old(self).lag() == 0 && old(self).queue().len() > 0
                    && e@ == old(self).queue().first() && final(self).queue()
                    == old(self).queue().drop_first() && final(self).lag() == 0,
                RecvOutcome::Empty => old(self).lag() == 0 && old(self).queue().len() == 0
                    && *final(self) == *old(self),
            },
    {
        if self.lagged > 0 {
            let n = self.lagged;
            self.lagged = 0;
            RecvOutcome::Lagged(n)
        } else if self.items.len() > 0 {
            let ghost old_q = self.queue();
            let e = self.items.remove(0);
            proof {
                assert(self.queue() =~= old_q.drop_first());
            }
            RecvOutcome::Envelope(e)
        } else {
            RecvOutcome::Empty
        }
    }
}

/// The process-wide bus: every subscriber's backlog, fed by every publish.
pub struct Bus {
    backlogs: Vec<Backlog>,
    capacity: usize,
}

impl Bus {
    /// Every backlog is well formed and bounded by the bus's capacity.
    pub closed spec fn wf(&self) -> bool {
        1 <= self.capacity && forall|i: int|
            0 <= i < self.backlogs@.len()
                ==> (#[trigger] self.backlogs@[i]).wf() && self.backlogs@[i].cap()
                == self.capacity as int
    }

    /// Each subscriber's queued envelopes, oldest first.
    pub closed spec fn queues(&self) -> Seq<Seq<BroadcastMessageV>> {
        Seq::new(self.backlogs@.len(), |i: int| self.backlogs@[i].queue())
    }

    /// The bound every backlog is made with.
    pub closed spec fn cap(&self) -> int {
        self.capacity as int
    }

    /// A bus with no subscribers yet.
    pub fn new(capacity: usize) -> (r: Bus)
        requires
            capacity >= 1,
        ensures
            r.wf(),
            r.queues() == Seq::<Seq<BroadcastMessageV>>::empty(),
            r.cap() == capacity,
    {
        let r = Bus { backlogs: Vec::new(), capacity };
        proof {
            assert(r.queues() =~= Seq::<Seq<BroadcastMessageV>>::empty());
        }
        r
    }

    /// Join the bus; the handle names the new, empty backlog.
    pub fn subscribe(&mut self) -> (handle: usize)
        requires
            old(self).wf(),
        ensures
            final(self).wf(),
            final(self).cap() == old(self).cap(),
            handle == old(self).queues().len(),
            final(self).queues() == old(self).queues().push(Seq::<BroadcastMessageV>::empty()),
    {
        let handle = self.backlogs.len();
        self.backlogs.push(Backlog::new(self.capacity));
        proof {
            assert(self.queues() =~= old(self).queues().push(
                Seq::<BroadcastMessageV>::empty(),
            ));
        }
        handle
    }

    /// Publish an envelope to every subscriber.
    ///
    /// Fails exactly when nobody subscribes; otherwise every backlog takes
    /// the envelope in, dropping its oldest when full.
    pub fn publish(&mut self, envelope: &BroadcastMessage) -> (r: Result<(), Error>)
        requires
            old(self).wf(),
        ensures
            final(self).wf(),
            final(self).cap() == old(self).cap(),
            r is Err <==> old(self).queues().len() == 0,
            r is Err ==> *final(self) == *old(self),
            final(self).queues().len() == old(self).queues().len(),
            forall|i: int| 0 <= i < old(self).queues().len()
                ==> #[trigger] final(self).queues()[i] == arrived(
                old(self).queues()[i],
                old(self).cap(),
                envelope@,
            ),
    {
        let n: usize = self.backlogs.len();
        if n == 0 {
            return Err(Error::NoSubscribers);
        }
        let ghost old_self = *self;
        let mut i: usize = 0;
        while i < n
            invariant
                i <= n,
                n == self.backlogs@.len(),
                self.backlogs@.len() == old_self.backlogs@.len(),
                self.capacity == old_self.capacity,
                1 <= self.capacity,
                forall|j: int| 0 <= j < self.backlogs@.len()
                    ==> (#[trigger] self.backlogs@[j]).wf() && self.backlogs@[j].cap()
                    == self.capacity as int,
                forall|j: int| 0 <= j < i ==> (#[trigger] self.backlogs@[j]).queue() == arrived(
                    old_self.backlogs@[j].queue(),
                    old_self.capacity as int,
                    envelope@,
                ),
                forall|j: int| i <= j < n ==> #[trigger] self.backlogs@[j]
                    == old_self.backlogs@[j],
            decreases n - i,
        {
            let entry = &mut self.backlogs[i];
            entry.push(envelope.clone());
            i += 1;
        }
        proof {
            assert forall|j: int| 0 <= j < old_self.queues().len() implies
                #[trigger] self.queues()[j] == arrived(
                old_self.queues()[j],
                old_self.capacity as int,
                envelope@,
            ) by {
                assert(self.backlogs@[j].queue() == arrived(
                    old_self.backlogs@[j].queue(),
                    old_self.capacity as int,
                    envelope@,
                ));
            }
        }
        Ok(())
    }

    /// What comes next for one subscriber.
    pub fn recv(&mut self, handle: usize) -> (r: RecvOutcome)
        requires
            old(self).wf(),
            handle < old(self).queues().len(),
        ensures
            final(self).wf(),
            final(self).cap() == old(self).cap(),
            final(self).queues().len() == old(self).queues().len(),
            forall|j: int| 0 <= j < old(self).queues().len() && j != handle as int
                ==> #[trigger] final(self).queues()[j] == old(self).queues()[j],
            match r {
                RecvOutcome::Envelope(e) => e@ == old(self).queues()[handle as int].first()
                    && old(self).queues()[handle as int].len() > 0
                    && final(self).queues()[handle as int]
                    == old(self).queues()[handle as int].drop_first(),
                RecvOutcome::Lagged(n) => n > 0 && final(self).queues()[handle as int]
                    == old(self).queues()[handle as int],
                RecvOutcome::Empty => old(self).queues()[handle as int].len() == 0
                    && final(self).queues()[handle as int]
                    == old(self).queues()[handle as int],
            },
    {
        let entry = &mut self.backlogs[handle];
        let r = entry.recv();
        proof {
            assert forall|j: int| 0 <= j < old(self).queues().len() && j != handle as int
                implies #[trigger] self.queues()[j] == old(self).queues()[j] by {}
            assert(self.queues()[handle as int] == self.backlogs@[handle as int].queue());
        }
        r
    }
}

/// While a backlog has room, nothing is lost: the arriving envelope is
/// queued behind every envelope already held, so each one is later handed
/// to the subscriber in order.
pub proof fn lemma_no_overflow_no_loss(
    q: Seq<BroadcastMessageV>,
    capacity: int,
    e: BroadcastMessageV,
)
    requires
        q.len() < capacity,
    ensures
        arrived(q, capacity, e) == q.push(e),
        arrived(q, capacity, e).len() == q.len() + 1,
        forall|i: int| 0 <= i < q.len() ==> #[trigger] arrived(q, capacity, e)[i] == q[i],
        arrived(q, capacity, e)[q.len() as int] == e,
{
}

} // verus!
