//! The snapshot bus: a bounded single-producer broadcast ring with a cursor
//! per subscriber. Publishing is total and never blocks: when the ring is
//! full the oldest snapshot is evicted. Each subscriber receives a (possibly
//! gappy) subsequence of the publication sequence, in publication order; a
//! subscriber that has lagged behind the ring is told so once and resumes at
//! the oldest snapshot still retained.

use vstd::prelude::*;

verus! {

pub const BUS_CAPACITY: usize = 100;

/// Bounded broadcast ring. The whole publication history is the ghost
/// sequence `hist`; the ring holds its most recent entries.
pub struct SnapshotBus {
    dropped: u64,
    ring: Vec<String>,
    hist: Ghost<Seq<Seq<char>>>,
}

/// A subscriber's cursor: the index into the publication history of the next
/// snapshot it will receive.
pub struct Subscriber {
    pub cursor: u64,
}

pub enum RecvOutcome {
    Empty,
    Lagged,
    Msg(String),
}

impl SnapshotBus {
    /// Everything ever published, oldest first.
    pub closed spec fn history(self) -> Seq<Seq<char>> {
        self.hist@
    }

    /// History index of the oldest snapshot still retained.
    pub closed spec fn oldest(self) -> u64 {
        self.dropped
    }

    pub closed spec fn wf(self) -> bool {
        &&& self.hist@.len() == self.dropped + self.ring@.len()
        &&& self.ring@.len() <= BUS_CAPACITY
        &&& self.hist@.len() <= u64::MAX
        &&& forall|i: int|
            0 <= i < self.ring@.len() ==> (#[trigger] self.ring@[i])@ == self.hist@[self.dropped
                + i]
    }

    pub fn new() -> (r: SnapshotBus)
        ensures
            r.wf(),
            r.history().len() == 0,
    {
        SnapshotBus { dropped: 0, ring: Vec::new(), hist: Ghost(Seq::empty()) }
    }

    /// Publishing never blocks and never fails: it is total for every bus
    /// state the library can reach, evicting the oldest retained snapshot
    /// when the ring is full.
    pub fn publish(&mut self, msg: String)
        requires
            old(self).wf(),
            old(self).history().len() < u64::MAX,
        ensures
            final(self).wf(),
            final(self).history() == old(self).history().push(msg@),
            final(self).oldest() >= old(self).oldest(),
    {
        if self.ring.len() == BUS_CAPACITY {
            self.ring.remove(0);
            self.dropped = self.dropped + 1;
        }
        self.ring.push(msg);
        proof {
            self.hist@ = self.hist@.push(msg@);
            assert forall|i: int| 0 <= i < self.ring@.len() implies (#[trigger] self.ring@[i])@
                == self.hist@[self.dropped + i] by {
                if i < self.ring@.len() - 1 {
                    if old(self).ring@.len() == BUS_CAPACITY {
                        assert(self.ring@[i] == old(self).ring@[i + 1]);
                    } else {
                        assert(self.ring@[i] == old(self).ring@[i]);
                    }
                }
            }
        }
    }

    /// Subscribe at the current head: only snapshots published afterwards
    /// are seen.
    pub fn subscribe(&self) -> (r: Subscriber)
        requires
            self.wf(),
        ensures
            r.cursor == self.history().len(),
    {
        Subscriber { cursor: self.dropped + self.ring.len() as u64 }
    }

    /// Receive the next snapshot. Each message handed out is the published
    /// snapshot at the subscriber's cursor, and the cursor only ever moves
    /// forward: every subscriber sees a (possibly gappy) subsequence of the
    /// publication sequence, in order. A subscriber whose cursor fell behind
    /// the ring is bumped to the oldest retained snapshot and told so.
    pub fn recv(&self, sub: &mut Subscriber) -> (r: RecvOutcome)
        requires
            self.wf(),
            old(sub).cursor <= self.history().len(),
        ensures
            final(sub).cursor >= old(sub).cursor,
            final(sub).cursor <= self.history().len(),
            match r {
                RecvOutcome::Empty => final(sub).cursor == old(sub).cursor && old(sub).cursor
                    == self.history().len(),
                RecvOutcome::Lagged => old(sub).cursor < self.oldest() && final(sub).cursor
                    == self.oldest(),
                RecvOutcome::Msg(s) => s@ == self.history()[old(sub).cursor as int]
                    && final(sub).cursor == old(sub).cursor + 1,
            },
    {
        if sub.cursor < self.dropped {
            sub.cursor = self.dropped;
            RecvOutcome::Lagged
        } else if sub.cursor < self.dropped + self.ring.len() as u64 {
            let idx = (sub.cursor - self.dropped) as usize;
            let s = self.ring[idx].clone();
            sub.cursor = sub.cursor + 1;
            RecvOutcome::Msg(s)
        } else {
            RecvOutcome::Empty
        }
    }
}

} // verus!
