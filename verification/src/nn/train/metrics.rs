//! How fast counters grow.

use vstd::prelude::*;

verus! {

/// What a counter was at several times, in nanoseconds, none older than ten minutes.
pub struct CounterLog {
    pub log: Vec<(u64, usize)>,
}

/// How many whole seconds lie between two times.
pub open spec fn seconds_between(from: u64, to: u64) -> int {
    if from <= to {
        (to - from) / 1_000_000_000
    } else {
        0
    }
}

/// Whether an entry is too old to be kept.
pub open spec fn expired(entry: (u64, usize), now: u64) -> bool {
    seconds_between(entry.0, now) > 600
}

/// Whether entry `k` is the first that is not too old.
pub open spec fn first_kept(log: Seq<(u64, usize)>, now: u64, k: int) -> bool {
    &&& 0 <= k < log.len()
    &&& !expired(log[k], now)
    &&& forall|j: int| 0 <= j < k ==> expired(#[trigger] log[j], now)
}

impl CounterLog {
    /// Whether there is an entry.
    pub open spec fn wf(self) -> bool {
        self.log@.len() > 0
    }

    /// A log that starts now, with zero.
    pub fn new(now: u64) -> (log: CounterLog)
        ensures
            log.wf(),
            log.log@ == seq![(now, 0usize)],
    {
        let mut log: Vec<(u64, usize)> = Vec::new();
        log.push((now, 0));
        CounterLog { log }
    }

    /// Note what the counter is now, and forget the entries at the front that are more than ten
    /// minutes old.
    pub fn report(&mut self, now: u64, value: usize)
        requires
            old(self).wf(),
        ensures
            final(self).wf(),
            exists|k: int|
                #[trigger] first_kept(old(self).log@.push((now, value)), now, k)
                    && final(self).log@ == old(self).log@.push((now, value)).skip(k),
    {
        self.log.push((now, value));
        let ghost all = self.log@;
        let ghost mut k: int = 0;
        assert(all.skip(0) =~= all);
        while self.too_old(now)
            invariant
                0 <= k < all.len(),
                all.last() == (now, value),
                self.log@ == all.skip(k),
                forall|j: int| 0 <= j < k ==> expired(#[trigger] all[j], now),
            decreases all.len() - k,
        {
            assert(all.skip(k)[0] == all[k]);
            if self.log.len() == 1 {
                assert(all[k] == all.last());
            }
            self.log.remove(0);
            assert(all.skip(k).remove(0) =~= all.skip(k + 1));
            proof {
                k = k + 1;
            }
        }
        assert(all.skip(k)[0] == all[k]);
        assert(first_kept(all, now, k));
    }

    /// Whether the first entry is too old to be kept.
    fn too_old(&self, now: u64) -> (old: bool)
        requires
            self.log@.len() > 0,
        ensures
            old == expired(self.log@[0], now),
    {
        let then: u64 = self.log[0].0;
        then <= now && (now - then) / 1_000_000_000 > 600
    }

    /// The last value noted.
    pub fn latest(&self) -> (value: usize)
        requires
            self.wf(),
        ensures
            value == self.log@.last().1,
    {
        self.log[self.log.len() - 1].1
    }

    /// How much the counter has grown since the first entry, and how many nanoseconds that took.
    /// With one entry nothing can be said.
    pub fn growth(&self) -> (growth: Option<(usize, u64)>)
        requires
            self.wf(),
            self.log@[0].1 <= self.log@.last().1,
        ensures
            growth is None <==> self.log@.len() < 2,
            growth matches Some((values, nanos)) ==> {
                &&& values == self.log@.last().1 - self.log@[0].1
                &&& nanos == if self.log@[0].0 <= self.log@.last().0 {
                    self.log@.last().0 - self.log@[0].0
                } else {
                    0
                }
            },
    {
        let n: usize = self.log.len();
        if n < 2 {
            return None;
        }
        let (t0, x0) = self.log[0];
        let (tn, xn) = self.log[n - 1];
        let nanos: u64 = if t0 <= tn {
            tn - t0
        } else {
            0
        };
        Some((xn - x0, nanos))
    }

    /// How much the counter has grown since the first entry.
    pub fn count(&self) -> (count: usize)
        requires
            self.wf(),
            self.log@[0].1 <= self.log@.last().1,
        ensures
            count == self.log@.last().1 - self.log@[0].1,
    {
        self.log[self.log.len() - 1].1 - self.log[0].1
    }
}

} // verus!
