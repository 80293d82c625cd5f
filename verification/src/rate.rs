//! The shared request-rate budget: one global instance bounds the
//! aggregate number of fetches all workers may start inside any rolling
//! window of the configured length.
//!
//! A permit is granted at time `now` only while fewer than `quota` of the
//! already granted permits still fall inside the window ending at `now`;
//! every grant is recorded with its timestamp. From that admission rule
//! alone, `lemma_rate_bound` proves the budget's whole point: over every
//! window of the configured length, no more than `quota` fetches are
//! admitted, no matter how many workers share the instance. Waiting for
//! the next permit (sleeping, waking workers) is the caller's side;
//! starvation-freedom comes from the window moving on: past grants age
//! out, so a blocked caller's next ask eventually finds room.

use vstd::prelude::*;

verus! {

/// Whether a grant at time `t` still occupies the window ending at `now`
/// (windows are the half-open spans `(now - w, now]`).
pub open spec fn in_window(t: u64, now: int, w: u64) -> bool {
    t + w > now
}

/// How many recorded grants still occupy the window ending at `now`.
pub open spec fn count_recent(gs: Seq<u64>, now: int, w: u64) -> int
    decreases gs.len(),
{
    if gs.len() == 0 {
        0
    } else {
        count_recent(gs.drop_last(), now, w) + (if in_window(gs.last(), now, w) {
            1int
        } else {
            0int
        })
    }
}

/// How many recorded grants were issued inside the window ending at
/// `t_end`: at most `t_end`, later than `t_end - w`.
pub open spec fn count_in_window(gs: Seq<u64>, t_end: int, w: u64) -> int
    decreases gs.len(),
{
    if gs.len() == 0 {
        0
    } else {
        count_in_window(gs.drop_last(), t_end, w) + (if gs.last() <= t_end && gs.last() + w > t_end {
            1int
        } else {
            0int
        })
    }
}

/// The token budget shared by every worker: the quota, the window length
/// in milliseconds, the grant log, and the last clock reading (the clock
/// is clamped to be monotone).
pub struct RateBudget {
    pub quota: u32,
    pub window_ms: u64,
    pub grants: Vec<u64>,
    pub last_now: u64,
}

impl RateBudget {
    /// The admission rule held at every grant so far: when grant `i` was
    /// admitted, fewer than `quota` earlier grants occupied its window.
    pub open spec fn wf(self) -> bool {
        &&& (forall|i: int|
            0 <= i < self.grants@.len() ==> (#[trigger] self.grants@[i]) <= self.last_now)
        &&& (forall|i: int|
            0 <= i < self.grants@.len() ==> count_recent(
                self.grants@.take(i),
                #[trigger] self.grants@[i] as int,
                self.window_ms,
            ) < self.quota)
    }

    /// A fresh budget: `quota` permits per rolling window of `window_ms`.
    pub fn new(quota: u32, window_ms: u64) -> (r: RateBudget)
        ensures
            r.wf(),
            r.quota == quota,
            r.window_ms == window_ms,
            r.grants@.len() == 0,
    {
        RateBudget { quota, window_ms, grants: Vec::new(), last_now: 0 }
    }

    /// Ask for one permit at clock reading `now_ms` (clamped to be
    /// monotone): granted exactly when fewer than `quota` grants still
    /// occupy the current window, in which case the grant is recorded
    /// and consumed atomically with the check.
    pub fn try_acquire(&mut self, now_ms: u64) -> (granted: bool)
        requires
            old(self).wf(),
        ensures
            final(self).wf(),
            final(self).quota == old(self).quota,
            final(self).window_ms == old(self).window_ms,
            granted == (count_recent(
                old(self).grants@,
                clamped(old(self).last_now, now_ms) as int,
                old(self).window_ms,
            ) < old(self).quota),
            granted ==> final(self).grants@ == old(self).grants@.push(
                clamped(old(self).last_now, now_ms),
            ) && final(self).last_now == clamped(old(self).last_now, now_ms),
            !granted ==> *final(self) == *old(self),
    {
        let now = if now_ms < self.last_now {
            self.last_now
        } else {
            now_ms
        };
        let ghost pre = *self;
        let mut count: usize = 0;
        let mut i: usize = 0;
        while i < self.grants.len()
            invariant
                *self == pre,
                pre.wf(),
                now == clamped(pre.last_now, now_ms),
                now >= pre.last_now,
                i <= self.grants@.len(),
                count <= i,
                count == count_recent(self.grants@.take(i as int), now as int, self.window_ms),
            decreases self.grants@.len() - i,
        {
            proof {
                assert(self.grants@.take(i as int + 1).drop_last() =~= self.grants@.take(i as int));
            }
            let t = self.grants[i];
            if self.window_ms > now - t {
                count = count + 1;
            }
            i = i + 1;
        }
        proof {
            assert(self.grants@.take(self.grants@.len() as int) =~= self.grants@);
        }
        if count < self.quota as usize {
            self.grants.push(now);
            self.last_now = now;
            proof {
                assert forall|k: int| 0 <= k < self.grants@.len() implies count_recent(
                    self.grants@.take(k),
                    #[trigger] self.grants@[k] as int,
                    self.window_ms,
                ) < self.quota by {
                    if k < self.grants@.len() - 1 {
                        assert(self.grants@.take(k) =~= pre.grants@.take(k));
                        assert(self.grants@[k] == pre.grants@[k]);
                    } else {
                        assert(self.grants@.take(k) =~= pre.grants@);
                    }
                }
            }
            true
        } else {
            false
        }
    }
}

/// The monotone clamp applied to clock readings.
pub open spec fn clamped(last: u64, now: u64) -> u64 {
    if now < last {
        last
    } else {
        now
    }
}

proof fn lemma_count_in_window_leq(s: Seq<u64>, t_end: int, now: int, w: u64)
    requires
        now <= t_end,
    ensures
        count_in_window(s, t_end, w) <= count_recent(s, now, w),
    decreases s.len(),
{
    if s.len() > 0 {
        lemma_count_in_window_leq(s.drop_last(), t_end, now, w);
    }
}

proof fn lemma_rate_bound_rec(gs: Seq<u64>, quota: u32, w: u64, t_end: int)
    requires
        forall|i: int|
            0 <= i < gs.len() ==> count_recent(gs.take(i), #[trigger] gs[i] as int, w) < quota,
    ensures
        count_in_window(gs, t_end, w) <= quota,
    decreases gs.len(),
{
    if gs.len() > 0 {
        let gsp = gs.drop_last();
        assert forall|i: int| 0 <= i < gsp.len() implies count_recent(
            gsp.take(i),
            #[trigger] gsp[i] as int,
            w,
        ) < quota by {
            assert(gsp.take(i) =~= gs.take(i));
            assert(gsp[i] == gs[i]);
        }
        lemma_rate_bound_rec(gsp, quota, w, t_end);
        let lastg = gs.last();
        if lastg <= t_end && lastg + w > t_end {
            assert(gs.take(gs.len() - 1) =~= gsp);
            assert(count_recent(gsp, lastg as int, w) < quota);
            lemma_count_in_window_leq(gsp, t_end, lastg as int, w);
        }
    }
}

/// The rate bound: over any rolling window of the configured length —
/// whatever its position — the budget has admitted at most `quota`
/// fetches. This holds of the shared instance, hence of the aggregate
/// over all workers.
pub proof fn lemma_rate_bound(b: RateBudget, t_end: int)
    requires
        b.wf(),
    ensures
        count_in_window(b.grants@, t_end, b.window_ms) <= b.quota,
{
    lemma_rate_bound_rec(b.grants@, b.quota, b.window_ms, t_end);
}

} // verus!
