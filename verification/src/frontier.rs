//! The crawl frontier: the authoritative table of every known URL and its
//! visit state, owned by the single coordinating loop. Workers never
//! touch it; they only report outcomes, which the coordinator merges here.
//!
//! Every key is a canonical URL (see `canon`), so no two rows can name
//! the same address in different spellings. A URL is dispatched at most
//! once per attempt — it is marked `Dispatched` before it is handed out —
//! and a failed URL is retried a bounded number of times before it is
//! excluded for good, which is what makes the whole crawl terminate on a
//! finite link graph.

use vstd::prelude::*;
use vstd::string::*;

use crate::canon::canonicalize;
use crate::canon::is_canonical;
use crate::canon::lemma_canonical_fixpoint;
use crate::canon::normalize_spec;
use crate::crawling::FailureCause;
use crate::crawling::FetchOutcome;

verus! {

/// Visit state of one known URL.
#[derive(Clone, Copy, Debug, PartialEq, Eq, Structural)]
pub enum UrlState {
    NotVisited,
    Dispatched,
    Visited,
    Failed(FailureCause),
}

/// One frontier row: a canonical URL, its state, and how many failed
/// attempts it has cost so far.
pub struct UrlEntry {
    pub url: String,
    pub state: UrlState,
    pub attempts: u32,
}

/// The URL state table. `retry_limit` is how many failures a URL may
/// accumulate and still be rescheduled; one more and it is out for good.
pub struct Frontier {
    pub entries: Vec<UrlEntry>,
    pub retry_limit: u32,
}

impl Frontier {
    /// Structural well-formedness: one row per URL, and a row still in
    /// play has not outspent its retry budget.
    pub open spec fn wf(self) -> bool {
        &&& (forall|i: int, j: int|
            0 <= i < j < self.entries@.len() ==> self.entries@[i].url@ != self.entries@[j].url@)
        &&& (forall|i: int|
            0 <= i < self.entries@.len() ==> ((#[trigger] self.entries@[i].state is NotVisited
                || self.entries@[i].state is Dispatched) ==> self.entries@[i].attempts
                <= self.retry_limit))
    }

    /// Every key is in canonical form.
    pub open spec fn keys_canonical(self) -> bool {
        forall|i: int| 0 <= i < self.entries@.len() ==> is_canonical(#[trigger] self.entries@[i].url@)
    }

    pub open spec fn has_key(self, k: Seq<char>) -> bool {
        exists|i: int| 0 <= i < self.entries@.len() && self.entries@[i].url@ == k
    }

    /// `k` is a key of this table standing `Dispatched` (in flight).
    pub open spec fn dispatched_key(self, k: Seq<char>) -> bool {
        exists|i: int|
            0 <= i < self.entries@.len() && (#[trigger] self.entries@[i]).url@ == k
                && self.entries@[i].state is Dispatched
    }

    /// `k` is a key of this table standing `NotVisited` (waiting).
    pub open spec fn waiting_key(self, k: Seq<char>) -> bool {
        exists|i: int|
            0 <= i < self.entries@.len() && (#[trigger] self.entries@[i]).url@ == k
                && self.entries@[i].state is NotVisited
    }

    /// Nothing waiting, nothing in flight.
    pub open spec fn exhausted_spec(self) -> bool {
        forall|i: int|
            0 <= i < self.entries@.len() ==> !(#[trigger] self.entries@[i].state is NotVisited)
                && !(self.entries@[i].state is Dispatched)
    }
}

/// How many rows of a table stand `Visited`.
pub open spec fn visited_in(s: Seq<UrlEntry>) -> int
    decreases s.len(),
{
    if s.len() == 0 {
        0
    } else {
        visited_in(s.drop_last()) + (if s.last().state is Visited {
            1int
        } else {
            0int
        })
    }
}

/// Work left in one row, for the termination measure: each selection and
/// each retry takes at least one unit off.
pub open spec fn entry_weight(e: UrlEntry, limit: u32) -> int {
    match e.state {
        UrlState::NotVisited => 2 * (limit - e.attempts) + 2,
        UrlState::Dispatched => 2 * (limit - e.attempts) + 1,
        UrlState::Visited => 0,
        UrlState::Failed(_) => 0,
    }
}

/// Work left in a whole table.
pub open spec fn weight_sum(s: Seq<UrlEntry>, limit: u32) -> int
    decreases s.len(),
{
    if s.len() == 0 {
        0
    } else {
        weight_sum(s.drop_last(), limit) + entry_weight(s.last(), limit)
    }
}

/// What one not-yet-discovered URL may still cost once it turns up.
pub open spec fn fresh_weight(limit: u32) -> int {
    2 * limit + 3
}

/// The crawl's termination measure: the work left in the table plus a
/// budget for the `undiscovered` URLs of the (finite) link graph that the
/// crawl has not met yet. Selecting, visiting, failing and discovering
/// each lower it strictly (see the postconditions below and
/// `lemma_measure_discovery`), and it never goes below zero
/// (`lemma_measure_nonneg`): on a finite graph with a bounded retry
/// limit, the crawl performs finitely many steps and ends.
pub open spec fn crawl_measure(f: Frontier, undiscovered: int) -> int {
    weight_sum(f.entries@, f.retry_limit) + undiscovered * fresh_weight(f.retry_limit)
}

proof fn lemma_has_key_extend(pre: Frontier, post: Frontier, k: Seq<char>)
    requires
        pre.has_key(k),
        post.entries@.len() >= pre.entries@.len(),
        forall|i: int|
            0 <= i < pre.entries@.len() ==> (#[trigger] post.entries@[i]).url == pre.entries@[i].url,
    ensures
        post.has_key(k),
{
    let i0 = choose|i: int| 0 <= i < pre.entries@.len() && pre.entries@[i].url@ == k;
    assert(post.entries@[i0].url@ == k);
}

proof fn lemma_weight_sum_update(s: Seq<UrlEntry>, i: int, e: UrlEntry, limit: u32)
    requires
        0 <= i < s.len(),
    ensures
        weight_sum(s.update(i, e), limit) == weight_sum(s, limit) - entry_weight(s[i], limit)
            + entry_weight(e, limit),
    decreases s.len(),
{
    if i == s.len() - 1 {
        assert(s.update(i, e).drop_last() =~= s.drop_last());
    } else {
        assert(s.update(i, e).drop_last() =~= s.drop_last().update(i, e));
        lemma_weight_sum_update(s.drop_last(), i, e, limit);
    }
}

proof fn lemma_weight_sum_push(s: Seq<UrlEntry>, e: UrlEntry, limit: u32)
    ensures
        weight_sum(s.push(e), limit) == weight_sum(s, limit) + entry_weight(e, limit),
{
    assert(s.push(e).drop_last() =~= s);
}

proof fn lemma_weight_sum_pointwise(a: Seq<UrlEntry>, b: Seq<UrlEntry>, limit: u32)
    requires
        a.len() == b.len(),
        forall|i: int| 0 <= i < a.len() ==> entry_weight(#[trigger] b[i], limit) <= entry_weight(
            a[i],
            limit,
        ),
    ensures
        weight_sum(b, limit) <= weight_sum(a, limit),
    decreases a.len(),
{
    if a.len() > 0 {
        assert forall|i: int| 0 <= i < a.drop_last().len() implies entry_weight(
            #[trigger] b.drop_last()[i],
            limit,
        ) <= entry_weight(a.drop_last()[i], limit) by {
            assert(b.drop_last()[i] == b[i]);
            assert(a.drop_last()[i] == a[i]);
        }
        lemma_weight_sum_pointwise(a.drop_last(), b.drop_last(), limit);
        assert(entry_weight(b.last(), limit) <= entry_weight(a[a.len() - 1], limit));
    }
}

proof fn lemma_weight_sum_strict(a: Seq<UrlEntry>, b: Seq<UrlEntry>, j: int, limit: u32)
    requires
        a.len() == b.len(),
        0 <= j < a.len(),
        forall|i: int| 0 <= i < a.len() ==> entry_weight(#[trigger] b[i], limit) <= entry_weight(
            a[i],
            limit,
        ),
        entry_weight(b[j], limit) < entry_weight(a[j], limit),
    ensures
        weight_sum(b, limit) < weight_sum(a, limit),
    decreases a.len(),
{
    assert forall|i: int| 0 <= i < a.drop_last().len() implies entry_weight(
        #[trigger] b.drop_last()[i],
        limit,
    ) <= entry_weight(a.drop_last()[i], limit) by {
        assert(b.drop_last()[i] == b[i]);
        assert(a.drop_last()[i] == a[i]);
    }
    if j == a.len() - 1 {
        lemma_weight_sum_pointwise(a.drop_last(), b.drop_last(), limit);
        assert(entry_weight(b.last(), limit) < entry_weight(a.last(), limit));
    } else {
        lemma_weight_sum_strict(a.drop_last(), b.drop_last(), j, limit);
        assert(entry_weight(b.last(), limit) <= entry_weight(a[a.len() - 1], limit));
    }
}

proof fn lemma_weight_sum_nonneg(s: Seq<UrlEntry>, limit: u32)
    requires
        forall|i: int|
            0 <= i < s.len() ==> ((#[trigger] s[i].state is NotVisited || s[i].state is Dispatched)
                ==> s[i].attempts <= limit),
    ensures
        weight_sum(s, limit) >= 0,
    decreases s.len(),
{
    if s.len() > 0 {
        lemma_weight_sum_nonneg(s.drop_last(), limit);
        assert(entry_weight(s.last(), limit) >= 0);
    }
}

/// The measure is never negative while the undiscovered budget is not:
/// the strict decreases of the operations below can only happen finitely
/// often, so the crawl terminates.
pub proof fn lemma_measure_nonneg(f: Frontier, undiscovered: int)
    requires
        f.wf(),
        undiscovered >= 0,
    ensures
        crawl_measure(f, undiscovered) >= 0,
{
    lemma_weight_sum_nonneg(f.entries@, f.retry_limit);
    assert(undiscovered * fresh_weight(f.retry_limit) >= 0) by (nonlinear_arith)
        requires
            undiscovered >= 0,
            fresh_weight(f.retry_limit) >= 0,
    ;
}

/// Discovering a fresh URL converts one unit of the undiscovered budget
/// into a new row and still lowers the measure.
pub proof fn lemma_measure_discovery(pre: Frontier, post: Frontier, undiscovered: int)
    requires
        post.retry_limit == pre.retry_limit,
        weight_sum(post.entries@, post.retry_limit) == weight_sum(pre.entries@, pre.retry_limit) + 2
            * pre.retry_limit + 2,
        undiscovered >= 1,
    ensures
        crawl_measure(post, undiscovered - 1) < crawl_measure(pre, undiscovered),
{
    assert((undiscovered - 1) * fresh_weight(pre.retry_limit) == undiscovered * fresh_weight(
        pre.retry_limit,
    ) - fresh_weight(pre.retry_limit)) by (nonlinear_arith);
}

/// Two distinct rows never canonicalize to the same URL: every key is
/// canonical, so each canonicalizes exactly to itself.
pub proof fn lemma_no_duplicate_canonical(f: Frontier, i: int, j: int)
    requires
        f.wf(),
        f.keys_canonical(),
        0 <= i < f.entries@.len(),
        0 <= j < f.entries@.len(),
        i != j,
    ensures
        normalize_spec(f.entries@[i].url@, f.entries@[i].url@) == Some(f.entries@[i].url@),
        normalize_spec(f.entries@[i].url@, f.entries@[i].url@) != normalize_spec(
            f.entries@[j].url@,
            f.entries@[j].url@,
        ),
{
    lemma_canonical_fixpoint(f.entries@[i].url@, f.entries@[i].url@);
    lemma_canonical_fixpoint(f.entries@[j].url@, f.entries@[j].url@);
    if i < j {
        assert(f.entries@[i].url@ != f.entries@[j].url@);
    } else {
        assert(f.entries@[j].url@ != f.entries@[i].url@);
    }
}

/// No double dispatch: a batch is drawn from `NotVisited` rows only,
/// while every URL already handed out stands `Dispatched` until its
/// outcome is merged — so no URL still in flight can enter a second
/// batch.
pub proof fn lemma_no_double_dispatch(f: Frontier, in_flight: Seq<Seq<char>>, batch: Seq<Seq<char>>)
    requires
        f.wf(),
        forall|p: int| #![trigger in_flight[p]]
            0 <= p < in_flight.len() ==> f.dispatched_key(in_flight[p]),
        forall|p: int| #![trigger batch[p]] 0 <= p < batch.len() ==> f.waiting_key(batch[p]),
    ensures
        forall|p: int, q: int|
            0 <= p < in_flight.len() && 0 <= q < batch.len() ==> in_flight[p] != batch[q],
{
    assert forall|p: int, q: int| 0 <= p < in_flight.len() && 0 <= q < batch.len() implies in_flight[p]
        != batch[q] by {
        if in_flight[p] == batch[q] {
            let i1 = choose|i: int|
                0 <= i < f.entries@.len() && (#[trigger] f.entries@[i]).url@ == in_flight[p]
                    && f.entries@[i].state is Dispatched;
            let i2 = choose|i: int|
                0 <= i < f.entries@.len() && (#[trigger] f.entries@[i]).url@ == batch[q]
                    && f.entries@[i].state is NotVisited;
            if i1 < i2 {
                assert(f.entries@[i1].url@ != f.entries@[i2].url@);
            } else if i2 < i1 {
                assert(f.entries@[i2].url@ != f.entries@[i1].url@);
            }
            assert(false);
        }
    }
}

/// When the frontier is exhausted, every known URL has reached a final
/// state: the crawl ends with each discovered page visited or failed.
pub proof fn lemma_exhausted_final(f: Frontier)
    requires
        f.exhausted_spec(),
    ensures
        forall|i: int|
            0 <= i < f.entries@.len() ==> (#[trigger] f.entries@[i].state) is Visited
                || f.entries@[i].state is Failed,
{
}

impl Frontier {
    /// Start a frontier from a seed URL. The seed runs through the
    /// canonicalizer first; a seed it rejects yields `None` rather than a
    /// crash.
    pub fn new(seed_url: &str, retry_limit: u32) -> (r: Option<Frontier>)
        ensures
            (r is Some) == (normalize_spec(seed_url@, seed_url@) is Some),
            (r matches Some(f) ==> {
                &&& f.wf()
                &&& f.keys_canonical()
                &&& f.retry_limit == retry_limit
                &&& f.entries@.len() == 1
                &&& normalize_spec(seed_url@, seed_url@) == Some(f.entries@[0].url@)
                &&& f.entries@[0].state is NotVisited
                &&& f.entries@[0].attempts == 0
            }),
    {
        match canonicalize(seed_url, seed_url) {
            Some(c) => {
                let mut entries: Vec<UrlEntry> = Vec::new();
                entries.push(UrlEntry { url: c, state: UrlState::NotVisited, attempts: 0 });
                Some(Frontier { entries, retry_limit })
            },
            None => None,
        }
    }

    /// Select up to `max` waiting URLs and mark each one `Dispatched`
    /// before it is handed out: exactly-once dispatch per attempt. When
    /// fewer than `max` come back, no waiting URL is left.
    pub fn select_batch(&mut self, max: usize) -> (r: Vec<String>)
        requires
            old(self).wf(),
        ensures
            final(self).wf(),
            final(self).retry_limit == old(self).retry_limit,
            final(self).entries@.len() == old(self).entries@.len(),
            forall|k: int|
                0 <= k < old(self).entries@.len() ==> (#[trigger] final(self).entries@[k]).url
                    == old(self).entries@[k].url && final(self).entries@[k].attempts == old(self).entries@[k].attempts,
            forall|k: int|
                0 <= k < old(self).entries@.len() && !((#[trigger] old(self).entries@[k].state) is NotVisited) ==> final(self).entries@[k].state == old(self).entries@[k].state,
            forall|k: int|
                0 <= k < old(self).entries@.len() ==> ((#[trigger] final(self).entries@[k]).state is Dispatched || final(self).entries@[k].state == old(self).entries@[k].state),
            r@.len() <= max,
            forall|b: int| #![trigger r@[b]]
                0 <= b < r@.len() ==> (exists|k: int|
                    0 <= k < old(self).entries@.len() && old(self).entries@[k].state is NotVisited && final(self).entries@[k].state is Dispatched && r@[b]@ == old(self).entries@[k].url@),
            forall|k: int|
                0 <= k < old(self).entries@.len() && (#[trigger] old(self).entries@[k].state) is NotVisited && final(self).entries@[k].state is Dispatched ==> (
                exists|b: int| 0 <= b < r@.len() && r@[b]@ == old(self).entries@[k].url@),
            r@.len() < max ==> forall|k: int|
                0 <= k < final(self).entries@.len() ==> !((#[trigger] final(self).entries@[k].state) is NotVisited),
            forall|b1: int, b2: int| 0 <= b1 < b2 < r@.len() ==> r@[b1]@ != r@[b2]@,
            forall|b: int| #![trigger r@[b]]
                0 <= b < r@.len() ==> old(self).waiting_key(r@[b]@) && final(self).dispatched_key(
                    r@[b]@,
                ),
            old(self).keys_canonical() ==> final(self).keys_canonical(),
            weight_sum(final(self).entries@, final(self).retry_limit) <= weight_sum(
                old(self).entries@,
                old(self).retry_limit,
            ),
            r@.len() > 0 ==> weight_sum(final(self).entries@, final(self).retry_limit) < weight_sum(
                old(self).entries@,
                old(self).retry_limit,
            ),
    {
        let ghost pre = *old(self);
        let ghost mut picks: Seq<int> = Seq::empty();
        let mut r: Vec<String> = Vec::new();
        let mut i: usize = 0;
        while i < self.entries.len() && r.len() < max
            invariant
                i <= self.entries@.len(),
                self.retry_limit == pre.retry_limit,
                self.entries@.len() == pre.entries@.len(),
                pre.wf(),
                r@.len() <= max,
                picks.len() == r@.len(),
                forall|b: int| #![trigger picks[b]]
                    0 <= b < picks.len() ==> 0 <= picks[b] < i
                        && pre.entries@[picks[b]].state is NotVisited
                        && self.entries@[picks[b]].state is Dispatched
                        && r@[b]@ == pre.entries@[picks[b]].url@,
                forall|b1: int, b2: int| 0 <= b1 < b2 < picks.len() ==> picks[b1] != picks[b2],
                forall|k: int|
                    0 <= k < i && (#[trigger] pre.entries@[k].state) is NotVisited
                        && self.entries@[k].state is Dispatched ==> picks.contains(k),
                forall|k: int|
                    0 <= k < pre.entries@.len() ==> (#[trigger] self.entries@[k]).url
                        == pre.entries@[k].url && self.entries@[k].attempts
                        == pre.entries@[k].attempts,
                forall|k: int|
                    i <= k < pre.entries@.len() ==> (#[trigger] self.entries@[k]).state
                        == pre.entries@[k].state,
                forall|k: int|
                    0 <= k < pre.entries@.len() && !((#[trigger] pre.entries@[k].state) is NotVisited)
                        ==> self.entries@[k].state == pre.entries@[k].state,
                forall|k: int|
                    0 <= k < pre.entries@.len() ==> ((#[trigger] self.entries@[k]).state is Dispatched
                        || self.entries@[k].state == pre.entries@[k].state),
                r@.len() < max ==> forall|k: int|
                    0 <= k < i ==> !((#[trigger] self.entries@[k].state) is NotVisited),
            decreases self.entries@.len() - i,
        {
            let is_waiting = match self.entries[i].state {
                UrlState::NotVisited => true,
                _ => false,
            };
            if is_waiting {
                let u = self.entries[i].url.clone();
                self.entries[i].state = UrlState::Dispatched;
                r.push(u);
                proof {
                    let ghost picks0 = picks;
                    picks = picks.push(i as int);
                    assert(picks[picks0.len() as int] == i as int);
                    assert forall|k: int|
                        0 <= k < i + 1 && (#[trigger] pre.entries@[k].state) is NotVisited
                            && self.entries@[k].state is Dispatched implies picks.contains(k) by {
                        if k == i as int {
                            assert(picks[picks0.len() as int] == k);
                        } else {
                            let b0 = choose|b: int| 0 <= b < picks0.len() && picks0[b] == k;
                            assert(picks[b0] == k);
                        }
                    }
                }
            }
            i = i + 1;
        }
        proof {
            assert forall|b: int| #![trigger r@[b]] 0 <= b < r@.len() implies (exists|k: int|
                0 <= k < pre.entries@.len() && pre.entries@[k].state is NotVisited
                    && self.entries@[k].state is Dispatched && r@[b]@ == pre.entries@[k].url@) by {
                let k0 = picks[b];
                assert(0 <= k0 < pre.entries@.len() && pre.entries@[k0].state is NotVisited
                    && self.entries@[k0].state is Dispatched && r@[b]@ == pre.entries@[k0].url@);
            }
            assert forall|k: int|
                0 <= k < pre.entries@.len() && (#[trigger] pre.entries@[k].state) is NotVisited
                    && self.entries@[k].state is Dispatched implies (exists|b: int|
                0 <= b < r@.len() && r@[b]@ == pre.entries@[k].url@) by {
                let b0 = choose|b: int| 0 <= b < picks.len() && picks[b] == k;
                assert(r@[b0]@ == pre.entries@[picks[b0]].url@);
            }
            assert forall|b: int| #![trigger r@[b]] 0 <= b < r@.len() implies pre.waiting_key(
                r@[b]@,
            ) && self.dispatched_key(r@[b]@) by {
                let k0 = picks[b];
                assert(pre.entries@[k0].url@ == r@[b]@ && pre.entries@[k0].state is NotVisited);
                assert(self.entries@[k0].url@ == r@[b]@ && self.entries@[k0].state is Dispatched);
            }
            assert forall|b1: int, b2: int| 0 <= b1 < b2 < r@.len() implies r@[b1]@ != r@[b2]@ by {
                if picks[b1] < picks[b2] {
                    assert(pre.entries@[picks[b1]].url@ != pre.entries@[picks[b2]].url@);
                } else {
                    assert(pre.entries@[picks[b2]].url@ != pre.entries@[picks[b1]].url@);
                }
            }
            assert forall|k: int| 0 <= k < pre.entries@.len() implies entry_weight(
                #[trigger] self.entries@[k],
                pre.retry_limit,
            ) <= entry_weight(pre.entries@[k], pre.retry_limit) by {
                if self.entries@[k].state == pre.entries@[k].state {
                    assert(self.entries@[k] == pre.entries@[k]);
                }
            }
            lemma_weight_sum_pointwise(pre.entries@, self.entries@, pre.retry_limit);
            if r@.len() > 0 {
                let k0 = picks[0];
                lemma_weight_sum_strict(pre.entries@, self.entries@, k0, pre.retry_limit);
            }
        }
        r
    }


    /// Merge a success for `url`: its row, if it stands `Dispatched`,
    /// becomes `Visited`; anything else is left alone.
    pub fn mark_visited(&mut self, url: &str)
        requires
            old(self).wf(),
        ensures
            final(self).wf(),
            final(self).retry_limit == old(self).retry_limit,
            final(self).entries@.len() == old(self).entries@.len(),
            forall|k: int|
                0 <= k < old(self).entries@.len() ==> (#[trigger] final(self).entries@[k]).url
                    == old(self).entries@[k].url && final(self).entries@[k].attempts == old(self).entries@[k].attempts,
            forall|k: int|
                0 <= k < old(self).entries@.len() && (old(self).entries@[k].url@ != url@ || !((
                #[trigger] old(self).entries@[k].state) is Dispatched)) ==> final(self).entries@[k].state == old(self).entries@[k].state,
            forall|k: int|
                0 <= k < old(self).entries@.len() && old(self).entries@[k].url@ == url@ && (
                #[trigger] old(self).entries@[k].state) is Dispatched ==> final(self).entries@[k].state is Visited,
            old(self).keys_canonical() ==> final(self).keys_canonical(),
            weight_sum(final(self).entries@, final(self).retry_limit) <= weight_sum(
                old(self).entries@,
                old(self).retry_limit,
            ),
            (exists|k: int|
                0 <= k < old(self).entries@.len() && old(self).entries@[k].url@ == url@ && (
                #[trigger] old(self).entries@[k].state) is Dispatched) ==> weight_sum(
                final(self).entries@,
                final(self).retry_limit,
            ) < weight_sum(old(self).entries@, old(self).retry_limit),
    {
        let ghost pre = *old(self);
        let key = String::from_str(url);
        let mut i: usize = 0;
        while i < self.entries.len()
            invariant
                i <= self.entries@.len(),
                *self == pre,
                pre == *old(self),
                pre.wf(),
                key@ == url@,
                forall|k: int|
                    0 <= k < i ==> (pre.entries@[k].url@ != url@ || !((#[trigger] pre.entries@[k].state) is Dispatched)),
            decreases self.entries@.len() - i,
        {
            let hit = self.entries[i].url == key;
            let dispatched = match self.entries[i].state {
                UrlState::Dispatched => true,
                _ => false,
            };
            if hit && dispatched {
                let ghost s0 = self.entries@;
                self.entries[i].state = UrlState::Visited;
                proof {
                    lemma_weight_sum_update(
                        s0,
                        i as int,
                        self.entries@[i as int],
                        pre.retry_limit,
                    );
                    assert forall|k: int|
                        0 <= k < pre.entries@.len() && pre.entries@[k].url@ == url@ && (
                        #[trigger] pre.entries@[k].state) is Dispatched implies self.entries@[k].state is Visited by {
                        if k != i as int {
                            if k < i as int {
                                assert(pre.entries@[k].url@ != pre.entries@[i as int].url@);
                            } else {
                                assert(pre.entries@[i as int].url@ != pre.entries@[k].url@);
                            }
                        }
                    }
                }
                return ;
            }
            i = i + 1;
        }
    }

    /// Merge a failure for `url`: a `Dispatched` row goes back to
    /// `NotVisited` while it has retries left, and is `Failed` for good
    /// once the budget is spent; anything else is left alone.
    pub fn mark_failed(&mut self, url: &str, cause: FailureCause)
        requires
            old(self).wf(),
        ensures
            final(self).wf(),
            final(self).retry_limit == old(self).retry_limit,
            final(self).entries@.len() == old(self).entries@.len(),
            forall|k: int|
                0 <= k < old(self).entries@.len() ==> (#[trigger] final(self).entries@[k]).url
                    == old(self).entries@[k].url,
            forall|k: int|
                0 <= k < old(self).entries@.len() && (old(self).entries@[k].url@ != url@ || !((
                #[trigger] old(self).entries@[k].state) is Dispatched)) ==> final(self).entries@[k]
                    == old(self).entries@[k],
            forall|k: int|
                0 <= k < old(self).entries@.len() && old(self).entries@[k].url@ == url@ && (
                #[trigger] old(self).entries@[k].state) is Dispatched && old(self).entries@[k].attempts < old(self).retry_limit ==> final(self).entries@[k].state is NotVisited && final(self).entries@[k].attempts == old(self).entries@[k].attempts + 1,
            forall|k: int|
                0 <= k < old(self).entries@.len() && old(self).entries@[k].url@ == url@ && (
                #[trigger] old(self).entries@[k].state) is Dispatched && old(self).entries@[k].attempts >= old(self).retry_limit ==> final(self).entries@[k].state
                    == UrlState::Failed(cause) && final(self).entries@[k].attempts == old(self).entries@[k].attempts,
            old(self).keys_canonical() ==> final(self).keys_canonical(),
            weight_sum(final(self).entries@, final(self).retry_limit) <= weight_sum(
                old(self).entries@,
                old(self).retry_limit,
            ),
            (exists|k: int|
                0 <= k < old(self).entries@.len() && old(self).entries@[k].url@ == url@ && (
                #[trigger] old(self).entries@[k].state) is Dispatched) ==> weight_sum(
                final(self).entries@,
                final(self).retry_limit,
            ) < weight_sum(old(self).entries@, old(self).retry_limit),
    {
        let ghost pre = *old(self);
        let key = String::from_str(url);
        let mut i: usize = 0;
        while i < self.entries.len()
            invariant
                i <= self.entries@.len(),
                *self == pre,
                pre == *old(self),
                pre.wf(),
                key@ == url@,
                forall|k: int|
                    0 <= k < i ==> (pre.entries@[k].url@ != url@ || !((#[trigger] pre.entries@[k].state) is Dispatched)),
            decreases self.entries@.len() - i,
        {
            let hit = self.entries[i].url == key;
            let dispatched = match self.entries[i].state {
                UrlState::Dispatched => true,
                _ => false,
            };
            if hit && dispatched {
                let ghost s0 = self.entries@;
                let a = self.entries[i].attempts;
                if a < self.retry_limit {
                    self.entries[i].state = UrlState::NotVisited;
                    let ghost s1 = self.entries@;
                    self.entries[i].attempts = a + 1;
                    proof {
                        assert(s1 =~= s0.update(i as int, s1[i as int]));
                        assert(self.entries@ =~= s0.update(i as int, self.entries@[i as int]));
                        lemma_weight_sum_update(
                            s0,
                            i as int,
                            self.entries@[i as int],
                            pre.retry_limit,
                        );
                    }
                } else {
                    self.entries[i].state = UrlState::Failed(cause);
                    proof {
                        lemma_weight_sum_update(
                            s0,
                            i as int,
                            self.entries@[i as int],
                            pre.retry_limit,
                        );
                    }
                }
                proof {
                    assert forall|k: int|
                        0 <= k < pre.entries@.len() && (pre.entries@[k].url@ != url@ || !((
                        #[trigger] pre.entries@[k].state) is Dispatched)) implies final(self).entries@[k] == pre.entries@[k] by {
                        if k != i as int {
                        } else {
                            assert(pre.entries@[i as int].url@ == url@);
                        }
                    }
                    assert forall|k: int|
                        0 <= k < pre.entries@.len() && pre.entries@[k].url@ == url@ && (
                        #[trigger] pre.entries@[k].state) is Dispatched implies k == i as int by {
                        if k < i as int {
                            assert(pre.entries@[k].url@ != pre.entries@[i as int].url@);
                        } else if k > i as int {
                            assert(pre.entries@[i as int].url@ != pre.entries@[k].url@);
                        }
                    }
                }
                return ;
            }
            i = i + 1;
        }
    }

    /// Add a (canonical) URL discovered on some page: a fresh key enters
    /// as a waiting row; a known key leaves the table untouched.
    pub fn insert_discovered(&mut self, url: String)
        requires
            old(self).wf(),
            is_canonical(url@),
        ensures
            final(self).wf(),
            final(self).retry_limit == old(self).retry_limit,
            old(self).has_key(url@) ==> *final(self) == *old(self),
            !old(self).has_key(url@) ==> final(self).entries@ == old(self).entries@.push(
                UrlEntry { url, state: UrlState::NotVisited, attempts: 0 },
            ),
            old(self).keys_canonical() ==> final(self).keys_canonical(),
            old(self).has_key(url@) ==> weight_sum(final(self).entries@, final(self).retry_limit)
                == weight_sum(old(self).entries@, old(self).retry_limit),
            !old(self).has_key(url@) ==> weight_sum(final(self).entries@, final(self).retry_limit)
                == weight_sum(old(self).entries@, old(self).retry_limit) + 2 * old(self).retry_limit + 2,
    {
        let ghost pre = *old(self);
        let mut i: usize = 0;
        while i < self.entries.len()
            invariant
                i <= self.entries@.len(),
                *self == pre,
                pre == *old(self),
                pre.wf(),
                forall|k: int| 0 <= k < i ==> (#[trigger] pre.entries@[k].url@) != url@,
            decreases self.entries@.len() - i,
        {
            if self.entries[i].url == url {
                return ;
            }
            i = i + 1;
        }
        proof {
            lemma_weight_sum_push(
                pre.entries@,
                UrlEntry { url, state: UrlState::NotVisited, attempts: 0 },
                pre.retry_limit,
            );
        }
        self.entries.push(UrlEntry { url, state: UrlState::NotVisited, attempts: 0 });
    }

    /// Merge one worker outcome, the coordinator's whole step for a
    /// result: a success marks the source visited and folds every
    /// outbound link in (each one re-canonicalized on the way, so keys
    /// stay canonical whatever the caller sends; a rejected link is
    /// dropped); a failure marks the source for retry or, once the
    /// budget is spent, failed for good.
    pub fn apply_outcome(&mut self, outcome: FetchOutcome)
        requires
            old(self).wf(),
        ensures
            final(self).wf(),
            final(self).retry_limit == old(self).retry_limit,
            old(self).keys_canonical() ==> final(self).keys_canonical(),
            final(self).entries@.len() >= old(self).entries@.len(),
            forall|k: int|
                0 <= k < old(self).entries@.len() ==> (#[trigger] final(self).entries@[k]).url
                    == old(self).entries@[k].url,
            forall|k: int|
                old(self).entries@.len() <= k < final(self).entries@.len() ==> (#[trigger] final(self).entries@[k]).state is NotVisited && final(self).entries@[k].attempts == 0
                    && is_canonical(final(self).entries@[k].url@),
            (outcome matches FetchOutcome::Success(d) ==> {
                &&& (forall|k: int|
                    0 <= k < old(self).entries@.len() && old(self).entries@[k].url@ == d.page_url@
                        && (#[trigger] old(self).entries@[k].state) is Dispatched ==> final(self).entries@[k].state is Visited)
                &&& (forall|k: int|
                    0 <= k < old(self).entries@.len() && (old(self).entries@[k].url@ != d.page_url@
                        || !((#[trigger] old(self).entries@[k].state) is Dispatched)) ==> final(self).entries@[k].state == old(self).entries@[k].state)
                &&& (forall|k: int|
                    0 <= k < old(self).entries@.len() ==> (#[trigger] final(self).entries@[k]).attempts == old(self).entries@[k].attempts)
                &&& (forall|j: int| #![trigger d.links@[j]]
                    0 <= j < d.links@.len() && normalize_spec(d.links@[j]@, d.links@[j]@) is Some
                        ==> final(self).has_key(
                            normalize_spec(d.links@[j]@, d.links@[j]@).unwrap(),
                        ))
                &&& (forall|k: int|
                    old(self).entries@.len() <= k < final(self).entries@.len() ==> (exists|j: int|
                        0 <= j < d.links@.len() && normalize_spec(d.links@[j]@, d.links@[j]@)
                            == Some((#[trigger] final(self).entries@[k]).url@)))
            }),
            (outcome matches FetchOutcome::Failure(u, c) ==> {
                &&& final(self).entries@.len() == old(self).entries@.len()
                &&& (forall|k: int|
                    0 <= k < old(self).entries@.len() && (old(self).entries@[k].url@ != u@ || !((
                    #[trigger] old(self).entries@[k].state) is Dispatched)) ==> final(self).entries@[k] == old(self).entries@[k])
                &&& (forall|k: int|
                    0 <= k < old(self).entries@.len() && old(self).entries@[k].url@ == u@ && (
                    #[trigger] old(self).entries@[k].state) is Dispatched && old(self).entries@[k].attempts < old(self).retry_limit
                        ==> final(self).entries@[k].state is NotVisited && final(self).entries@[k].attempts == old(self).entries@[k].attempts + 1)
                &&& (forall|k: int|
                    0 <= k < old(self).entries@.len() && old(self).entries@[k].url@ == u@ && (
                    #[trigger] old(self).entries@[k].state) is Dispatched && old(self).entries@[k].attempts >= old(self).retry_limit
                        ==> final(self).entries@[k].state == UrlState::Failed(c) && final(self).entries@[k].attempts == old(self).entries@[k].attempts)
            }),
    {
        match outcome {
            FetchOutcome::Success(data) => {
                self.mark_visited(data.page_url.as_str());
                let mut i: usize = 0;
                let ghost mid = *self;
                while i < data.links.len()
                    invariant
                        i <= data.links@.len(),
                        self.wf(),
                        self.retry_limit == mid.retry_limit,
                        mid.keys_canonical() ==> self.keys_canonical(),
                        self.entries@.len() >= mid.entries@.len(),
                        forall|k: int|
                            0 <= k < mid.entries@.len() ==> (#[trigger] self.entries@[k])
                                == mid.entries@[k],
                        forall|k: int|
                            mid.entries@.len() <= k < self.entries@.len() ==> (#[trigger] self.entries@[k]).state is NotVisited
                                && self.entries@[k].attempts == 0 && is_canonical(
                                self.entries@[k].url@,
                            ),
                        forall|j: int| #![trigger data.links@[j]]
                            0 <= j < i && normalize_spec(data.links@[j]@, data.links@[j]@) is Some
                                ==> self.has_key(
                                    normalize_spec(data.links@[j]@, data.links@[j]@).unwrap(),
                                ),
                        forall|k: int|
                            mid.entries@.len() <= k < self.entries@.len() ==> (exists|j: int|
                                0 <= j < i && normalize_spec(data.links@[j]@, data.links@[j]@)
                                    == Some((#[trigger] self.entries@[k]).url@)),
                    decreases data.links@.len() - i,
                {
                    let ghost before = *self;
                    match canonicalize(data.links[i].as_str(), data.links[i].as_str()) {
                        Some(c) => {
                            self.insert_discovered(c);
                            proof {
                                if !before.has_key(c@) {
                                    assert(self.entries@[self.entries@.len() - 1].url@ == c@);
                                }
                                assert(self.has_key(c@));
                                assert forall|j: int| #![trigger data.links@[j]]
                                    0 <= j < i + 1 && normalize_spec(
                                        data.links@[j]@,
                                        data.links@[j]@,
                                    ) is Some implies self.has_key(
                                    normalize_spec(data.links@[j]@, data.links@[j]@).unwrap(),
                                ) by {
                                    if j == i as int {
                                        assert(normalize_spec(data.links@[j]@, data.links@[j]@)
                                            == Some(c@));
                                    } else {
                                        lemma_has_key_extend(
                                            before,
                                            *self,
                                            normalize_spec(
                                                data.links@[j]@,
                                                data.links@[j]@,
                                            ).unwrap(),
                                        );
                                    }
                                }
                                assert forall|k: int|
                                    mid.entries@.len() <= k < self.entries@.len() implies (
                                exists|j: int|
                                    0 <= j < i + 1 && normalize_spec(
                                        data.links@[j]@,
                                        data.links@[j]@,
                                    ) == Some((#[trigger] self.entries@[k]).url@)) by {
                                    if k < before.entries@.len() {
                                        assert(self.entries@[k] == before.entries@[k]);
                                        let j0 = choose|j: int|
                                            0 <= j < i && normalize_spec(
                                                data.links@[j]@,
                                                data.links@[j]@,
                                            ) == Some(before.entries@[k].url@);
                                        assert(0 <= j0 < i + 1 && normalize_spec(
                                            data.links@[j0]@,
                                            data.links@[j0]@,
                                        ) == Some(self.entries@[k].url@));
                                    } else {
                                        assert(self.entries@[k].url@ == c@);
                                        assert(normalize_spec(
                                            data.links@[i as int]@,
                                            data.links@[i as int]@,
                                        ) == Some(self.entries@[k].url@));
                                    }
                                }
                            }
                        },
                        None => {
                            proof {
                                assert forall|j: int| #![trigger data.links@[j]]
                                    0 <= j < i + 1 && normalize_spec(
                                        data.links@[j]@,
                                        data.links@[j]@,
                                    ) is Some implies self.has_key(
                                    normalize_spec(data.links@[j]@, data.links@[j]@).unwrap(),
                                ) by {
                                    if j == i as int {
                                        assert(normalize_spec(
                                            data.links@[j]@,
                                            data.links@[j]@,
                                        ) is None);
                                    }
                                }
                                assert forall|k: int|
                                    mid.entries@.len() <= k < self.entries@.len() implies (
                                exists|j: int|
                                    0 <= j < i + 1 && normalize_spec(
                                        data.links@[j]@,
                                        data.links@[j]@,
                                    ) == Some((#[trigger] self.entries@[k]).url@)) by {
                                    let j0 = choose|j: int|
                                        0 <= j < i && normalize_spec(
                                            data.links@[j]@,
                                            data.links@[j]@,
                                        ) == Some(self.entries@[k].url@);
                                    assert(0 <= j0 < i + 1 && normalize_spec(
                                        data.links@[j0]@,
                                        data.links@[j0]@,
                                    ) == Some(self.entries@[k].url@));
                                }
                            }
                        },
                    }
                    i = i + 1;
                }
            },
            FetchOutcome::Failure(url, cause) => {
                self.mark_failed(url.as_str(), cause);
            },
        }
    }

    /// Whether nothing is waiting and nothing is in flight: together with
    /// a visited-page limit, the coordinator's stop condition.
    pub fn is_exhausted(&self) -> (r: bool)
        ensures
            r == self.exhausted_spec(),
    {
        let mut i: usize = 0;
        while i < self.entries.len()
            invariant
                i <= self.entries@.len(),
                forall|k: int|
                    0 <= k < i ==> !((#[trigger] self.entries@[k].state) is NotVisited) && !(
                    self.entries@[k].state is Dispatched),
            decreases self.entries@.len() - i,
        {
            let busy = match self.entries[i].state {
                UrlState::NotVisited => true,
                UrlState::Dispatched => true,
                _ => false,
            };
            if busy {
                return false;
            }
            i = i + 1;
        }
        true
    }

    /// How many rows stand `Visited`.
    pub fn visited_count(&self) -> (r: usize)
        ensures
            r == visited_in(self.entries@),
            r <= self.entries@.len(),
    {
        let mut n: usize = 0;
        let mut i: usize = 0;
        while i < self.entries.len()
            invariant
                i <= self.entries@.len(),
                n <= i,
                n == visited_in(self.entries@.take(i as int)),
            decreases self.entries@.len() - i,
        {
            proof {
                assert(self.entries@.take(i as int + 1).drop_last() =~= self.entries@.take(
                    i as int,
                ));
            }
            let v = match self.entries[i].state {
                UrlState::Visited => true,
                _ => false,
            };
            if v {
                n = n + 1;
            }
            i = i + 1;
        }
        proof {
            assert(self.entries@.take(self.entries@.len() as int) =~= self.entries@);
        }
        n
    }
}

} // verus!
