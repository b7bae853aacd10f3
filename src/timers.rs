use vstd::prelude::*;

verus! {

/// A deadline known to consensus.
#[derive(Clone, Copy, Debug, PartialEq, Eq, Structural)]
pub enum ConsensusTimeout {
    /// The election deadline.
    Election,
    /// The heartbeat deadline towards one peer.
    Heartbeat(u64),
}

/// What a timer hands back when it fires.
#[derive(Clone, Copy, Debug, PartialEq, Eq, Structural)]
pub enum ServerTimeout {
    Consensus(ConsensusTimeout),
    /// End of the back-off of the peer connection under this handle.
    Reconnect(usize),
}

/// A one-shot timer: when it fires, and what it hands back.
#[derive(Clone, Copy, Debug, PartialEq, Eq, Structural)]
pub struct Timer {
    pub deadline: u64,
    pub payload: ServerTimeout,
}

/// One-shot timers keyed by handle. A handle is the index of a slot; a slot is
/// reused only after its timer fired or was cancelled.
pub struct TimerWheel {
    slots: Vec<Option<Timer>>,
}

impl TimerWheel {
    /// The live timers, by handle.
    pub closed spec fn view(&self) -> Map<usize, Timer> {
        Map::new(
            |h: usize| h < self.slots@.len() && self.slots@[h as int].is_some(),
            |h: usize| self.slots@[h as int].unwrap(),
        )
    }

    /// A wheel with no timer.
    pub fn new() -> (r: TimerWheel)
        ensures
            r@ == Map::<usize, Timer>::empty(),
    {
        let r = TimerWheel { slots: Vec::new() };
        proof {
            assert(r@ =~= Map::<usize, Timer>::empty());
        }
        r
    }

    /// Arms a timer and returns its handle, which was free before.
    pub fn arm(&mut self, deadline: u64, payload: ServerTimeout) -> (h: usize)
        ensures
            !old(self)@.contains_key(h),
            final(self)@ == old(self)@.insert(h, (Timer { deadline, payload })),
    {
        let t = Timer { deadline, payload };
        let mut i: usize = 0;
        while i < self.slots.len() && self.slots[i].is_some()
            invariant
                i <= self.slots@.len(),
                self.slots == old(self).slots,
                forall|j: int| 0 <= j < i ==> #[trigger] self.slots@[j].is_some(),
            decreases self.slots@.len() - i,
        {
            i = i + 1;
        }
        if i < self.slots.len() {
            self.slots.set(i, Some(t));
        } else {
            self.slots.push(Some(t));
        }
        proof {
            assert(!old(self)@.contains_key(i));
            assert(self@ =~= old(self)@.insert(i, t));
        }
        i
    }

    /// Cancels the timer under `h`. Returns false, changing nothing, where no
    /// timer is live under `h`.
    pub fn cancel(&mut self, h: usize) -> (r: bool)
        ensures
            r == old(self)@.contains_key(h),
            final(self)@ == old(self)@.remove(h),
    {
        if h < self.slots.len() && self.slots[h].is_some() {
            self.slots.set(h, None);
            proof {
                assert(self@ =~= old(self)@.remove(h));
            }
            true
        } else {
            proof {
                assert(self@ =~= old(self)@.remove(h));
            }
            false
        }
    }

    /// Takes out the live timer with the earliest deadline, if that deadline
    /// is not after `now`, and returns its handle and payload.
    pub fn pop_expired(&mut self, now: u64) -> (r: Option<(usize, ServerTimeout)>)
        ensures
            r is None ==> final(self)@ == old(self)@ && forall|h: usize| #[trigger]
                old(self)@.contains_key(h) ==> old(self)@[h].deadline > now,
            r matches Some((h, p)) ==> {
                &&& old(self)@.contains_key(h)
                &&& old(self)@[h].payload == p
                &&& old(self)@[h].deadline <= now
                &&& forall|g: usize| #[trigger]
                    old(self)@.contains_key(g) ==> old(self)@[h].deadline <= old(self)@[g].deadline
                &&& final(self)@ == old(self)@.remove(h)
            },
    {
        let mut best: Option<usize> = None;
        let mut i: usize = 0;
        while i < self.slots.len()
            invariant
                i <= self.slots@.len(),
                best matches Some(b) ==> b < i && self@.contains_key(b) && self@[b].deadline <= now,
                best matches Some(b) ==> forall|g: usize| #[trigger]
                    self@.contains_key(g) && g < i ==> self@[b].deadline <= self@[g].deadline,
                best is None ==> forall|g: usize| #[trigger]
                    self@.contains_key(g) && g < i ==> self@[g].deadline > now,
            decreases self.slots@.len() - i,
        {
            if let Some(t) = self.slots[i] {
                let better = match best {
                    None => t.deadline <= now,
                    Some(b) => t.deadline < self.slots[b].unwrap().deadline,
                };
                if better {
                    best = Some(i);
                }
            }
            i = i + 1;
        }
        match best {
            None => None,
            Some(b) => {
                let p = self.slots[b].unwrap().payload;
                self.slots.set(b, None);
                proof {
                    assert(self@ =~= old(self)@.remove(b));
                }
                Some((b, p))
            },
        }
    }

    /// The earliest deadline of a live timer, if any.
    pub fn next_deadline(&self) -> (r: Option<u64>)
        ensures
            r is None ==> self@.dom() == Set::<usize>::empty(),
            r matches Some(d) ==> (exists|h: usize| #[trigger]
                self@.contains_key(h) && self@[h].deadline == d) && forall|g: usize| #[trigger]
                self@.contains_key(g) ==> d <= self@[g].deadline,
    {
        let mut best: Option<u64> = None;
        let mut i: usize = 0;
        while i < self.slots.len()
            invariant
                i <= self.slots@.len(),
                best is None ==> forall|g: usize| #[trigger] self@.contains_key(g) ==> g >= i,
                best matches Some(d) ==> (exists|h: usize| #[trigger]
                    self@.contains_key(h) && self@[h].deadline == d),
                best matches Some(d) ==> forall|g: usize| #[trigger]
                    self@.contains_key(g) && g < i ==> d <= self@[g].deadline,
            decreases self.slots@.len() - i,
        {
            if let Some(t) = self.slots[i] {
                let smaller = match best {
                    None => true,
                    Some(d) => t.deadline < d,
                };
                if smaller {
                    best = Some(t.deadline);
                    assert(self@.contains_key(i));
                }
            }
            i = i + 1;
        }
        proof {
            if best is None {
                assert(self@.dom() =~= Set::<usize>::empty());
            }
        }
        best
    }
}

} // verus!
