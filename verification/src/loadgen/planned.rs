//! The load that a schedule offers, interval by interval.

use crate::loadgen::schedule::Arrival;
use crate::time;
use vstd::multiset::Multiset;
use vstd::prelude::*;

verus! {

/// How many of the instants `first + k * step`, `k < n`, lie in `lo..hi`.
pub open spec fn due_between(first: int, step: int, n: nat, lo: int, hi: int) -> nat
    decreases n,
{
    if n == 0 {
        0
    } else {
        let rest = due_between(first, step, (n - 1) as nat, lo, hi);
        if lo <= first + (n - 1) * step < hi {
            rest + 1
        } else {
            rest
        }
    }
}

/// Each instant of a progression lies in one of two adjoining intervals or
/// in neither, never in both.
pub proof fn law_adjoining_intervals_share_no_instant(
    first: int,
    step: int,
    n: nat,
    lo: int,
    mid: int,
    hi: int,
)
    requires
        lo <= mid <= hi,
    ensures
        due_between(first, step, n, lo, mid) + due_between(first, step, n, mid, hi)
            == due_between(first, step, n, lo, hi),
    decreases n,
{
    if n > 0 {
        law_adjoining_intervals_share_no_instant(first, step, (n - 1) as nat, lo, mid, hi);
    }
}

/// No more instants are counted than there are.
proof fn lemma_due_bound(first: int, step: int, n: nat, lo: int, hi: int)
    ensures
        due_between(first, step, n, lo, hi) <= n,
    decreases n,
{
    if n > 0 {
        lemma_due_bound(first, step, (n - 1) as nat, lo, hi);
    }
}

/// The instants before `bound` are the first `upto` of them.
proof fn lemma_due_below(first: int, step: int, n: nat, lo: int, bound: int, upto: int)
    requires
        step >= 0,
        lo <= first,
        0 <= upto <= n,
        upto > 0 ==> first + (upto - 1) * step < bound,
        upto < n ==> first + upto * step >= bound,
    ensures
        due_between(first, step, n, lo, bound) == upto,
    decreases n,
{
    if n > 0 {
        let last = (n - 1) * step;
        assert(last >= 0) by (nonlinear_arith)
            requires
                last == (n - 1) * step,
                n >= 1,
                step >= 0,
        ;
        if upto == n {
            if n > 1 {
                assert((n - 2) * step <= (n - 1) * step) by (nonlinear_arith)
                    requires
                        step >= 0,
                ;
            }
            lemma_due_below(first, step, (n - 1) as nat, lo, bound, upto - 1);
        } else {
            assert(upto * step <= last) by (nonlinear_arith)
                requires
                    last == (n - 1) * step,
                    upto <= n - 1,
                    step >= 0,
            ;
            lemma_due_below(first, step, (n - 1) as nat, lo, bound, upto);
        }
    }
}

/// No instant at or after `first` lies before it.
proof fn lemma_none_before(first: int, step: int, n: nat, lo: int, hi: int)
    requires
        step >= 0,
        hi <= first,
    ensures
        due_between(first, step, n, lo, hi) == 0,
    decreases n,
{
    if n > 0 {
        assert((n - 1) * step >= 0) by (nonlinear_arith)
            requires
                n >= 1,
                step >= 0,
        ;
        lemma_none_before(first, step, (n - 1) as nat, lo, hi);
    }
}

/// Once `counted` of the instants lie before `lo`, the rest lie at or after
/// it: nothing is left when all do.
proof fn lemma_none_left(first: int, step: int, n: nat, lo: int, hi: int)
    requires
        lo <= hi,
        n > 0 ==> first + (n - 1) * step < lo,
        step >= 0,
    ensures
        due_between(first, step, n, lo, hi) == 0,
    decreases n,
{
    if n > 0 {
        if n > 1 {
            assert((n - 2) * step <= (n - 1) * step) by (nonlinear_arith)
                requires
                    step >= 0,
            ;
        }
        lemma_none_left(first, step, (n - 1) as nat, lo, hi);
    }
}

/// Offered load of one interval.
#[derive(Debug, Clone, Copy, PartialEq, Eq, Structural)]
pub struct PlannedInterval {
    /// Interval index.
    pub index: u64,
    /// Streams the schedule has open, summed over the samples.
    pub open: u64,
    /// Samples taken: the mean of the open streams is `open` by this, and 0
    /// without samples.
    pub samples: u64,
    /// Chunks the schedule has due in the interval.
    pub chunks: u64,
}

/// Tracks the load the schedule offers, sampled at the same instants as the
/// achieved concurrency.
#[derive(Debug)]
pub struct PlannedLoad {
    /// Start of the first interval.
    pub origin_ns: u64,
    /// Length of an interval.
    pub interval_ns: u64,
    /// When the open streams end, latest first.
    pub ends: Vec<u64>,
    /// Sum of the samples and their number, for every interval.
    pub concurrency: Vec<(u64, u64)>,
    /// Chunks due, for every interval.
    pub chunks: Vec<u64>,
}

/// The numbers descend.
pub open spec fn descending(s: Seq<u64>) -> bool {
    forall|i: int, j: int| 0 <= i <= j < s.len() ==> s[i] >= s[j]
}

impl PlannedLoad {
    /// Start of interval `i`.
    pub open spec fn start_of(self, i: int) -> int {
        self.origin_ns + i * self.interval_ns
    }

    /// The intervals end at a time that can be told, and the ends of the
    /// open streams are in order.
    pub open spec fn wf(self) -> bool {
        &&& self.interval_ns > 0
        &&& self.start_of(self.chunks@.len() as int) <= u64::MAX
        &&& self.concurrency@.len() == self.chunks@.len()
        &&& descending(self.ends@)
    }

    /// The interval that holds `t`, if it is one of those covered.
    pub open spec fn interval_of(self, t: u64) -> Option<int> {
        if t < self.origin_ns {
            None
        } else {
            let i = (t - self.origin_ns) / self.interval_ns as int;
            if i < self.chunks@.len() {
                Some(i)
            } else {
                None
            }
        }
    }

    /// Instants of a progression that lie in interval `i`.
    pub open spec fn due_in(self, first: int, step: int, n: nat, i: int) -> nat {
        due_between(first, step, n, self.start_of(i), self.start_of(i + 1))
    }

    /// Chunks that a progression of instants adds to interval `i`.
    pub open spec fn added(self, first: u64, step: u64, n: u32, i: int) -> nat {
        if self.interval_of(first) is Some {
            self.due_in(first as int, step as int, n as nat, i)
        } else {
            0
        }
    }

    /// Another stream of `n` chunks can be counted in every interval.
    pub open spec fn has_room(self, n: u32) -> bool {
        forall|i: int| 0 <= i < self.chunks@.len() ==> #[trigger] self.chunks@[i] + n <= u64::MAX
    }

    /// When the open streams end.
    pub open spec fn open_ends(self) -> Multiset<u64> {
        self.ends@.to_multiset()
    }

    /// Covers `intervals` intervals of `interval_ns` from `origin_ns`.
    pub fn new(origin_ns: u64, interval_ns: u64, intervals: usize) -> (r: Self)
        requires
            interval_ns > 0,
            origin_ns + intervals * interval_ns <= u64::MAX,
        ensures
            r.wf(),
            r.origin_ns == origin_ns,
            r.interval_ns == interval_ns,
            r.ends@ == Seq::<u64>::empty(),
            r.concurrency@ == Seq::new(intervals as nat, |i: int| (0u64, 0u64)),
            r.chunks@ == Seq::new(intervals as nat, |i: int| 0u64),
    {
        let mut concurrency: Vec<(u64, u64)> = Vec::new();
        let mut chunks: Vec<u64> = Vec::new();
        let mut i: usize = 0;
        while i < intervals
            invariant
                i <= intervals,
                concurrency@ == Seq::new(i as nat, |k: int| (0u64, 0u64)),
                chunks@ == Seq::new(i as nat, |k: int| 0u64),
            decreases intervals - i,
        {
            concurrency.push((0, 0));
            chunks.push(0);
            i += 1;
            assert(concurrency@ =~= Seq::new(i as nat, |k: int| (0u64, 0u64)));
            assert(chunks@ =~= Seq::new(i as nat, |k: int| 0u64));
        }
        PlannedLoad { origin_ns, interval_ns, ends: Vec::new(), concurrency, chunks }
    }

    /// The interval that holds `t_ns`, if it is one of those covered.
    pub fn index_of(&self, t_ns: u64) -> (r: Option<usize>)
        requires
            self.wf(),
        ensures
            match r {
                Some(i) => self.interval_of(t_ns) == Some(i as int) && i < self.chunks@.len()
                    && self.start_of(i as int) <= t_ns < self.start_of(i + 1),
                None => self.interval_of(t_ns) is None,
            },
    {
        if t_ns < self.origin_ns {
            return None;
        }
        let index: u64 = (t_ns - self.origin_ns) / self.interval_ns;
        if index < self.chunks.len() as u64 {
            proof {
                let d = t_ns - self.origin_ns;
                let w = self.interval_ns as int;
                vstd::arithmetic::div_mod::lemma_fundamental_div_mod(d, w);
                assert(0 <= d % w < w) by (nonlinear_arith)
                    requires
                        w > 0,
                ;
                assert(index * w <= d < (index + 1) * w) by (nonlinear_arith)
                    requires
                        d == w * (d / w) + d % w,
                        index == d / w,
                        0 <= d % w < w,
                ;
            }
            Some(index as usize)
        } else {
            None
        }
    }

    /// Registers a started stream whose chunks are due at
    /// `first_ns + k * step_ns`.
    pub fn start(&mut self, arrival: &Arrival, first_ns: u64, step_ns: u64)
        requires
            old(self).wf(),
            old(self).has_room(arrival.chunks),
        ensures
            final(self).wf(),
            final(self).origin_ns == old(self).origin_ns,
            final(self).interval_ns == old(self).interval_ns,
            final(self).concurrency@ == old(self).concurrency@,
            final(self).chunks@.len() == old(self).chunks@.len(),
            final(self).open_ends() == old(self).open_ends().insert(
                time::capped(arrival.sched_ns + arrival.lifetime_ns),
            ),
            forall|i: int|
                0 <= i < old(self).chunks@.len() ==> #[trigger] final(self).chunks@[i] == old(
                    self,
                ).chunks@[i] + old(self).added(first_ns, step_ns, arrival.chunks, i),
    {
        let end: u64 = arrival.sched_ns.saturating_add(arrival.lifetime_ns);
        let mut at: usize = self.ends.len();
        while at > 0 && self.ends[at - 1] < end
            invariant
                at <= self.ends@.len(),
                descending(self.ends@),
                forall|k: int| at <= k < self.ends@.len() ==> self.ends@[k] < end,
            decreases at,
        {
            at -= 1;
        }
        let ghost before = self.ends@;
        self.ends.insert(at, end);
        proof {
            assert(self.ends@ == before.insert(at as int, end));
            vstd::seq_lib::to_multiset_insert(before, at as int, end);
            assert(descending(self.ends@)) by {
                assert forall|i: int, j: int| 0 <= i <= j < self.ends@.len() implies self.ends@[i]
                    >= self.ends@[j] by {
                    if i < at && j > at {
                        assert(before[i] >= before[j - 1]);
                    } else if i > at {
                        assert(before[i - 1] >= before[j - 1]);
                    } else if i < at && j < at {
                        assert(before[i] >= before[j]);
                    } else if i < at && j == at {
                        assert(before[i] >= before[at - 1]);
                    }
                }
            }
        }
        self.add_progression(first_ns, step_ns, arrival.chunks);
    }

    /// Adds the chunk instants `first_ns + k * step_ns`, `k < n`, to the
    /// per-interval counts; none of them when the first is in none of the
    /// intervals.
    pub fn add_progression(&mut self, first_ns: u64, step_ns: u64, n: u32)
        requires
            old(self).wf(),
            old(self).has_room(n),
        ensures
            final(self).wf(),
            final(self).origin_ns == old(self).origin_ns,
            final(self).interval_ns == old(self).interval_ns,
            final(self).ends@ == old(self).ends@,
            final(self).concurrency@ == old(self).concurrency@,
            final(self).chunks@.len() == old(self).chunks@.len(),
            forall|i: int|
                0 <= i < old(self).chunks@.len() ==> #[trigger] final(self).chunks@[i] == old(
                    self,
                ).chunks@[i] + old(self).added(first_ns, step_ns, n, i),
    {
        let mut idx: usize = match self.index_of(first_ns) {
            None => {
                return ;
            },
            Some(i) => i,
        };
        let ghost before = *self;
        let ghost first = first_ns as int;
        let ghost step = step_ns as int;
        let ghost start = idx;
        proof {
            assert forall|i: int| 0 <= i < start implies #[trigger] before.due_in(first, step, n as nat, i) == 0 by {
                assert((i + 1) * before.interval_ns <= start * before.interval_ns)
                    by (nonlinear_arith)
                    requires
                        i + 1 <= start,
                ;
                lemma_none_before(first, step, n as nat, before.start_of(i), before.start_of(i + 1));
            }
        }
        if step_ns == 0 {
            proof {
                assert forall|i: int| start <= i < before.chunks@.len() implies #[trigger] before.due_in(first, step, n as nat, i) == if i == start {
                    n as nat
                } else {
                    0
                } by {
                    lemma_all_at_once(
                        first,
                        n as nat,
                        before.start_of(i),
                        before.start_of(i + 1),
                    );
                    if i > start {
                        assert((start + 1) * before.interval_ns <= i * before.interval_ns)
                            by (nonlinear_arith)
                            requires
                                start + 1 <= i,
                        ;
                    }
                }
            }
            let count: u64 = self.chunks[idx] + n as u64;
            self.chunks.set(idx, count);
            return ;
        }
        let total: u64 = n as u64;
        let mut counted: u64 = 0;
        while counted < total && idx < self.chunks.len()
            invariant
                before.wf(),
                before.has_room(n),
                before.interval_of(first_ns) is Some,
                start <= idx <= self.chunks@.len(),
                self.chunks@.len() == before.chunks@.len(),
                self.origin_ns == before.origin_ns,
                self.interval_ns == before.interval_ns,
                self.ends == before.ends,
                self.concurrency == before.concurrency,
                first == first_ns,
                step == step_ns,
                step_ns > 0,
                total == n,
                counted <= total,
                before.start_of(start as int) <= first < before.start_of(start + 1),
                counted > 0 ==> first + (counted - 1) * step < before.start_of(idx as int),
                counted < total && idx > start ==> first + counted * step >= before.start_of(
                    idx as int,
                ),
                idx == start ==> counted == 0,
                forall|i: int|
                    0 <= i < start ==> #[trigger] before.due_in(first, step, n as nat, i) == 0,
                forall|i: int|
                    0 <= i < idx ==> #[trigger] self.chunks@[i] == before.chunks@[i]
                        + before.due_in(first, step, n as nat, i),
                forall|i: int|
                    idx <= i < self.chunks@.len() ==> #[trigger] self.chunks@[i]
                        == before.chunks@[i],
            decreases self.chunks@.len() - idx,
        {
            proof {
                assert((idx + 1) * self.interval_ns <= self.chunks@.len() * self.interval_ns)
                    by (nonlinear_arith)
                    requires
                        idx + 1 <= self.chunks@.len(),
                ;
                assert((start + 1) * self.interval_ns <= (idx + 1) * self.interval_ns)
                    by (nonlinear_arith)
                    requires
                        start <= idx,
                ;
                assert((idx + 1) * self.interval_ns >= 0) by (nonlinear_arith);
            }
            assert(idx < self.chunks.len());
            let end: u64 = self.origin_ns + (idx as u64 + 1) * self.interval_ns;
            let gap: u64 = end - first_ns;
            // The number of k >= 0 with first + k * step < end.
            let below: u64 = (gap - 1) / step_ns + 1;
            let upto: u64 = if below <= total {
                below
            } else {
                total
            };
            proof {
                lemma_ceiling(gap as int, step, below as int);
                lemma_upto(first, step, total as int, end as int, below as int, upto as int);
                lemma_due_below(
                    first,
                    step,
                    n as nat,
                    before.start_of(start as int),
                    end as int,
                    upto as int,
                );
                assert(start * self.interval_ns <= idx * self.interval_ns) by (nonlinear_arith)
                    requires
                        start <= idx,
                ;
                assert(idx * self.interval_ns <= (idx + 1) * self.interval_ns)
                    by (nonlinear_arith);
                law_adjoining_intervals_share_no_instant(
                    first,
                    step,
                    n as nat,
                    before.start_of(start as int),
                    before.start_of(idx as int),
                    end as int,
                );
                if idx > start {
                    lemma_due_below(
                        first,
                        step,
                        n as nat,
                        before.start_of(start as int),
                        before.start_of(idx as int),
                        counted as int,
                    );
                } else {
                    lemma_none_before(
                        first,
                        step,
                        n as nat,
                        before.start_of(start as int),
                        before.start_of(start as int),
                    );
                }
                lemma_due_bound(
                    first,
                    step,
                    n as nat,
                    before.start_of(idx as int),
                    before.start_of(idx + 1),
                );
            }
            let count: u64 = self.chunks[idx] + (upto - counted);
            self.chunks.set(idx, count);
            counted = upto;
            idx += 1;
        }
        proof {
            assert forall|i: int| 0 <= i < before.chunks@.len() implies #[trigger] self.chunks@[i]
                == before.chunks@[i] + before.added(first_ns, step_ns, n, i) by {
                if i >= idx {
                    assert(idx * before.interval_ns <= i * before.interval_ns) by (nonlinear_arith)
                        requires
                            idx <= i,
                    ;
                    assert(i * before.interval_ns <= (i + 1) * before.interval_ns)
                        by (nonlinear_arith);
                    lemma_none_left(
                        first,
                        step,
                        n as nat,
                        before.start_of(i),
                        before.start_of(i + 1),
                    );
                }
            }
        }
    }

    /// Samples the planned open-stream count at `now_ns` and returns it:
    /// streams that ended by then are not open any more.
    pub fn sample(&mut self, now_ns: u64) -> (r: u64)
        requires
            old(self).wf(),
            old(self).interval_of(now_ns) matches Some(i) ==> old(self).concurrency@[i].0 + old(
                self,
            ).ends@.len() <= u64::MAX && old(self).concurrency@[i].1 < u64::MAX,
        ensures
            final(self).wf(),
            final(self).origin_ns == old(self).origin_ns,
            final(self).interval_ns == old(self).interval_ns,
            final(self).chunks@ == old(self).chunks@,
            final(self).open_ends() == old(self).open_ends().filter(|end: u64| end > now_ns),
            r == final(self).open_ends().len(),
            final(self).concurrency@ == match old(self).interval_of(now_ns) {
                Some(i) => old(self).concurrency@.update(
                    i,
                    (
                        (old(self).concurrency@[i].0 + r) as u64,
                        (old(self).concurrency@[i].1 + 1) as u64,
                    ),
                ),
                None => old(self).concurrency@,
            },
    {
        broadcast use vstd::multiset::group_multiset_axioms;

        let ghost all = self.ends@;
        while self.ends.len() > 0 && self.ends[self.ends.len() - 1] <= now_ns
            invariant
                self.ends@.len() <= all.len(),
                self.ends@ == all.take(self.ends@.len() as int),
                descending(all),
                forall|k: int| self.ends@.len() <= k < all.len() ==> all[k] <= now_ns,
                self.origin_ns == old(self).origin_ns,
                self.interval_ns == old(self).interval_ns,
                self.chunks == old(self).chunks,
                self.concurrency == old(self).concurrency,
            decreases self.ends@.len(),
        {
            self.ends.pop();
            assert(self.ends@ =~= all.take(self.ends@.len() as int));
        }
        let open: u64 = self.ends.len() as u64;
        proof {
            let n = self.ends@.len() as int;
            lemma_filtered(all, n, now_ns);
            self.ends@.to_multiset_ensures();
        }
        let at = self.index_of(now_ns);
        if let Some(i) = at {
            let slot = self.concurrency[i];
            self.concurrency.set(i, (slot.0 + open, slot.1 + 1));
        }
        open
    }

    /// The offered load of every interval.
    pub fn finish(&self) -> (r: Vec<PlannedInterval>)
        requires
            self.wf(),
        ensures
            r@.len() == self.chunks@.len(),
            forall|i: int|
                0 <= i < r@.len() ==> #[trigger] r@[i] == (PlannedInterval {
                    index: i as u64,
                    open: self.concurrency@[i].0,
                    samples: self.concurrency@[i].1,
                    chunks: self.chunks@[i],
                }),
    {
        let mut out: Vec<PlannedInterval> = Vec::new();
        let mut i: usize = 0;
        while i < self.chunks.len()
            invariant
                self.wf(),
                i <= self.chunks@.len(),
                out@.len() == i,
                forall|k: int|
                    0 <= k < i ==> #[trigger] out@[k] == (PlannedInterval {
                        index: k as u64,
                        open: self.concurrency@[k].0,
                        samples: self.concurrency@[k].1,
                        chunks: self.chunks@[k],
                    }),
            decreases self.chunks@.len() - i,
        {
            let slot = self.concurrency[i];
            out.push(
                PlannedInterval {
                    index: i as u64,
                    open: slot.0,
                    samples: slot.1,
                    chunks: self.chunks[i],
                },
            );
            i += 1;
        }
        out
    }
}

/// Instants that coincide lie in the same intervals.
proof fn lemma_all_at_once(first: int, n: nat, lo: int, hi: int)
    ensures
        due_between(first, 0, n, lo, hi) == if lo <= first < hi {
            n
        } else {
            0
        },
    decreases n,
{
    if n > 0 {
        assert((n - 1) * 0 == 0) by (nonlinear_arith);
        lemma_all_at_once(first, (n - 1) as nat, lo, hi);
    }
}

/// `gap` by `step`, rounded up.
proof fn lemma_ceiling(gap: int, step: int, below: int)
    requires
        gap >= 1,
        step >= 1,
        below == (gap - 1) / step + 1,
    ensures
        below >= 1,
        (below - 1) * step < gap,
        below * step >= gap,
{
    vstd::arithmetic::div_mod::lemma_fundamental_div_mod(gap - 1, step);
    let q = (gap - 1) / step;
    let m = (gap - 1) % step;
    assert(0 <= m < step && q >= 0) by (nonlinear_arith)
        requires
            m == (gap - 1) % step,
            q == (gap - 1) / step,
            gap >= 1,
            step >= 1,
    ;
    assert(q * step <= gap - 1 && (q + 1) * step >= gap) by (nonlinear_arith)
        requires
            gap - 1 == step * q + m,
            0 <= m < step,
    ;
}

/// The instants before `end` are the first `below`, or all of them.
proof fn lemma_upto(first: int, step: int, total: int, end: int, below: int, upto: int)
    requires
        step >= 1,
        total >= 1,
        below >= 1,
        (below - 1) * step < end - first,
        below * step >= end - first,
        upto == time::smaller(below, total),
    ensures
        1 <= upto <= total,
        first + (upto - 1) * step < end,
        upto < total ==> first + upto * step >= end,
{
    assert((upto - 1) * step <= (below - 1) * step) by (nonlinear_arith)
        requires
            upto <= below,
            step >= 1,
    ;
}

/// Dropping the smallest of descending numbers keeps those that are larger
/// than `now`.
proof fn lemma_filtered(all: Seq<u64>, n: int, now: u64)
    requires
        0 <= n <= all.len(),
        descending(all),
        n > 0 ==> all[n - 1] > now,
        forall|k: int| n <= k < all.len() ==> all[k] <= now,
    ensures
        all.take(n).to_multiset() == all.to_multiset().filter(|end: u64| end > now),
    decreases all.len(),
{
    broadcast use vstd::multiset::group_multiset_axioms;

    let keep = |end: u64| end > now;
    if all.len() == 0 {
        all.to_multiset_ensures();
        all.take(n).to_multiset_ensures();
        assert(all.take(n).to_multiset() =~= all.to_multiset().filter(keep));
    } else {
        let rest = all.drop_last();
        assert(rest.push(all.last()) =~= all);
        rest.to_multiset_ensures();
        assert(all.to_multiset() =~= rest.to_multiset().insert(all.last()));
        if n == all.len() {
            assert(descending(rest));
            if n > 1 {
                assert(all[n - 2] >= all[n - 1]);
            }
            lemma_filtered(rest, n - 1, now);
            assert(rest.take(n - 1) =~= rest);
            assert(all.take(n) =~= all);
            assert(all.to_multiset().filter(keep) =~= rest.to_multiset().filter(keep).insert(
                all.last(),
            ));
        } else {
            assert(descending(rest));
            lemma_filtered(rest, n, now);
            assert(rest.take(n) =~= all.take(n));
            assert(all[all.len() - 1] <= now);
            assert(all.to_multiset().filter(keep) =~= rest.to_multiset().filter(keep));
        }
    }
}

/// Offered load of one interval over all shards.
#[derive(Debug)]
pub struct MergedInterval {
    /// Interval index.
    pub index: u64,
    /// Sum of the open streams and number of samples, for every shard that
    /// covered the interval: the mean number of open streams is the sum of
    /// the shards' means.
    pub shares: Vec<(u64, u64)>,
    /// Chunks the schedule has due in the interval.
    pub chunks: u64,
}

/// The intervals of all shards one after the other.
pub open spec fn all_planned(shards: Seq<Vec<PlannedInterval>>) -> Seq<PlannedInterval>
    decreases shards.len(),
{
    if shards.len() == 0 {
        Seq::empty()
    } else {
        all_planned(shards.drop_last()) + shards.last()@
    }
}

/// Number of intervals up to the last one that occurs.
pub open spec fn merged_len(planned: Seq<PlannedInterval>) -> int
    decreases planned.len(),
{
    if planned.len() == 0 {
        0
    } else {
        time::larger(merged_len(planned.drop_last()), planned.last().index + 1)
    }
}

/// Chunks due in interval `i`.
pub open spec fn merged_chunks(planned: Seq<PlannedInterval>, i: int) -> int
    decreases planned.len(),
{
    if planned.len() == 0 {
        0
    } else {
        merged_chunks(planned.drop_last(), i) + if planned.last().index == i {
            planned.last().chunks as int
        } else {
            0
        }
    }
}

/// Sums and sample counts of interval `i`.
pub open spec fn merged_shares(planned: Seq<PlannedInterval>, i: int) -> Seq<(u64, u64)>
    decreases planned.len(),
{
    if planned.len() == 0 {
        Seq::empty()
    } else if planned.last().index == i {
        merged_shares(planned.drop_last(), i).push((planned.last().open, planned.last().samples))
    } else {
        merged_shares(planned.drop_last(), i)
    }
}

/// The merged intervals are those of `planned`.
pub open spec fn merges(planned: Seq<PlannedInterval>, merged: Seq<MergedInterval>) -> bool {
    &&& merged.len() == merged_len(planned)
    &&& forall|i: int|
        0 <= i < merged.len() ==> {
            &&& (#[trigger] merged[i]).index == i
            &&& merged[i].chunks == merged_chunks(planned, i)
            &&& merged[i].shares@ == merged_shares(planned, i)
        }
}

/// Every interval of `planned` has a number that can be counted to, and the
/// chunks of each interval can be added up.
pub open spec fn mergeable(planned: Seq<PlannedInterval>) -> bool {
    &&& forall|i: int| 0 <= i < planned.len() ==> (#[trigger] planned[i]).index < usize::MAX
    &&& forall|n: int, i: int|
        0 <= n <= planned.len() ==> #[trigger] merged_chunks(planned.take(n), i) <= u64::MAX
}

/// Chunks of all intervals together.
pub open spec fn chunk_sum(planned: Seq<PlannedInterval>) -> int
    decreases planned.len(),
{
    if planned.len() == 0 {
        0
    } else {
        chunk_sum(planned.drop_last()) + planned.last().chunks
    }
}

proof fn lemma_chunk_sum(planned: Seq<PlannedInterval>, n: int, i: int)
    requires
        0 <= n <= planned.len(),
    ensures
        0 <= merged_chunks(planned.take(n), i) <= chunk_sum(planned.take(n)) <= chunk_sum(planned),
    decreases planned.len() + n,
{
    if n < planned.len() {
        lemma_chunk_sum(planned.drop_last(), n, i);
        assert(planned.drop_last().take(n) =~= planned.take(n));
    } else {
        assert(planned.take(n) =~= planned);
        if n > 0 {
            lemma_chunk_sum(planned.drop_last(), n - 1, i);
            assert(planned.drop_last().take(n - 1) =~= planned.drop_last());
        }
    }
}

/// Whether every interval has a number that can be counted to, and all
/// chunks together can be added up; the planned load can then be merged.
pub fn can_merge(shards: &Vec<Vec<PlannedInterval>>) -> (r: bool)
    ensures
        r == (chunk_sum(all_planned(shards@)) <= u64::MAX && forall|i: int|
            0 <= i < all_planned(shards@).len() ==> (#[trigger] all_planned(shards@)[i]).index
                < usize::MAX),
        r ==> mergeable(all_planned(shards@)),
{
    let ghost all = all_planned(shards@);
    let mut sum: u64 = 0;
    let mut s: usize = 0;
    assert(all.take(0) =~= Seq::empty());
    assert(shards@.take(0) =~= Seq::empty());
    while s < shards.len()
        invariant
            s <= shards@.len(),
            all == all_planned(shards@),
            sum == chunk_sum(all_planned(shards@.take(s as int))),
            forall|i: int|
                0 <= i < all_planned(shards@.take(s as int)).len() ==> (
                #[trigger] all_planned(shards@.take(s as int))[i]).index < usize::MAX,
        decreases shards@.len() - s,
    {
        let shard = &shards[s];
        let ghost before = all_planned(shards@.take(s as int));
        let ghost with = all_planned(shards@.take(s + 1));
        proof {
            assert(shards@.take(s + 1).drop_last() =~= shards@.take(s as int));
            assert(with == before + shard@);
            lemma_prefix(shards@, s + 1);
        }
        let mut k: usize = 0;
        assert(before + shard@.take(0) =~= before);
        while k < shard.len()
            invariant
                k <= shard@.len(),
                with == before + shard@,
                with.is_prefix_of(all),
                all == all_planned(shards@),
                sum == chunk_sum(before + shard@.take(k as int)),
                forall|i: int|
                    0 <= i < before.len() + k ==> (#[trigger] with[i]).index < usize::MAX,
            decreases shard@.len() - k,
        {
            let p = shard[k];
            let ghost at = before.len() + k;
            proof {
                assert(with[at] == p);
                assert(all[at] == with[at]);
                let next = before + shard@.take(k + 1);
                assert(next.drop_last() =~= before + shard@.take(k as int));
                assert(next.last() == p);
                assert(all.take(next.len() as int) =~= next);
                lemma_chunk_sum(all, next.len() as int, 0);
            }
            if p.index >= usize::MAX as u64 {
                return false;
            }
            match sum.checked_add(p.chunks) {
                Some(v) => {
                    sum = v;
                },
                None => {
                    return false;
                },
            }
            k += 1;
        }
        assert(before + shard@.take(k as int) =~= with);
        s += 1;
    }
    assert(shards@.take(s as int) =~= shards@);
    proof {
        assert forall|n: int, i: int| 0 <= n <= all.len() implies #[trigger] merged_chunks(
            all.take(n),
            i,
        ) <= u64::MAX by {
            lemma_chunk_sum(all, n, i);
        }
    }
    true
}

proof fn lemma_beyond(planned: Seq<PlannedInterval>, i: int)
    requires
        i >= merged_len(planned),
    ensures
        merged_chunks(planned, i) == 0,
        merged_shares(planned, i) == Seq::<(u64, u64)>::empty(),
    decreases planned.len(),
{
    if planned.len() > 0 {
        lemma_beyond(planned.drop_last(), i);
    }
}

fn merge_one(merged: &mut Vec<MergedInterval>, p: PlannedInterval, done: Ghost<
    Seq<PlannedInterval>,
>)
    requires
        merges(done@, old(merged)@),
        p.index < usize::MAX,
        merged_chunks(done@.push(p), p.index as int) <= u64::MAX,
    ensures
        merges(done@.push(p), final(merged)@),
{
    let index: usize = p.index as usize;
    proof {
        assert(done@.push(p).drop_last() =~= done@);
    }
    while merged.len() <= index
        invariant
            index < usize::MAX,
            merged@.len() >= merged_len(done@),
            merged@.len() <= time::larger(merged_len(done@), index + 1),
            forall|i: int|
                0 <= i < merged@.len() ==> {
                    &&& (#[trigger] merged@[i]).index == i
                    &&& merged@[i].chunks == merged_chunks(done@, i)
                    &&& merged@[i].shares@ == merged_shares(done@, i)
                },
        decreases index + 1 - merged@.len(),
    {
        let n: u64 = merged.len() as u64;
        proof {
            lemma_beyond(done@, n as int);
        }
        merged.push(MergedInterval { index: n, shares: Vec::new(), chunks: 0 });
    }
    let slot = &mut merged[index];
    slot.chunks += p.chunks;
    slot.shares.push((p.open, p.samples));
}

/// Sums the planned load of several shards interval by interval.
pub fn merge_planned(shards: &Vec<Vec<PlannedInterval>>) -> (r: Vec<MergedInterval>)
    requires
        mergeable(all_planned(shards@)),
    ensures
        merges(all_planned(shards@), r@),
{
    let mut merged: Vec<MergedInterval> = Vec::new();
    let ghost all = all_planned(shards@);
    let mut s: usize = 0;
    assert(all.take(0) =~= Seq::empty());
    assert(shards@.take(0) =~= Seq::empty());
    while s < shards.len()
        invariant
            s <= shards@.len(),
            all == all_planned(shards@),
            mergeable(all),
            merges(all_planned(shards@.take(s as int)), merged@),
        decreases shards@.len() - s,
    {
        let shard = &shards[s];
        let ghost before = all_planned(shards@.take(s as int));
        let ghost with = all_planned(shards@.take(s + 1));
        proof {
            assert(shards@.take(s + 1).drop_last() =~= shards@.take(s as int));
            assert(with == before + shard@);
            lemma_prefix(shards@, s + 1);
        }
        let mut k: usize = 0;
        assert(before + shard@.take(0) =~= before);
        while k < shard.len()
            invariant
                k <= shard@.len(),
                with == before + shard@,
                with.is_prefix_of(all),
                mergeable(all),
                merges(before + shard@.take(k as int), merged@),
            decreases shard@.len() - k,
        {
            proof {
                let at = (before.len() + k) as int;
                assert(all[at] == shard@[k as int]) by {
                    assert(with[at] == shard@[k as int]);
                }
                assert((before + shard@.take(k as int)).push(shard@[k as int]) =~= all.take(
                    at + 1,
                )) by {
                    assert(with.take(at + 1) =~= all.take(at + 1));
                }
                assert(before + shard@.take(k + 1) =~= (before + shard@.take(k as int)).push(
                    shard@[k as int],
                ));
            }
            merge_one(&mut merged, shard[k], Ghost(before + shard@.take(k as int)));
            k += 1;
        }
        assert(before + shard@.take(k as int) =~= with);
        s += 1;
    }
    assert(shards@.take(s as int) =~= shards@);
    merged
}

proof fn lemma_prefix(shards: Seq<Vec<PlannedInterval>>, n: int)
    requires
        0 <= n <= shards.len(),
    ensures
        all_planned(shards.take(n)).is_prefix_of(all_planned(shards)),
    decreases shards.len(),
{
    if n < shards.len() {
        lemma_prefix(shards.drop_last(), n);
        assert(shards.drop_last().take(n) =~= shards.take(n));
    } else {
        assert(shards.take(n) =~= shards);
    }
}

/// Instants that all lie in a span are all counted in it, and those of which
/// none does are not counted at all.
pub proof fn law_a_span_counts_the_instants_in_it(
    first: int,
    step: int,
    n: nat,
    lo: int,
    hi: int,
)
    requires
        step >= 0,
    ensures
        (forall|k: int| 0 <= k < n ==> lo <= #[trigger] instant(first, step, k) < hi)
            ==> due_between(first, step, n, lo, hi) == n,
        (forall|k: int| 0 <= k < n ==> !(lo <= #[trigger] instant(first, step, k) < hi))
            ==> due_between(first, step, n, lo, hi) == 0,
    decreases n,
{
    if n > 0 {
        law_a_span_counts_the_instants_in_it(first, step, (n - 1) as nat, lo, hi);
        assert(instant(first, step, n - 1) == first + (n - 1) * step);
    }
}

/// Instant `k` of a progression.
pub open spec fn instant(first: int, step: int, k: int) -> int {
    first + k * step
}

/// A time belongs to the interval that it lies in, counted from the origin.
pub proof fn law_a_time_belongs_to_its_interval(load: PlannedLoad, t: u64)
    requires
        load.wf(),
    ensures
        match load.interval_of(t) {
            Some(i) => 0 <= i < load.chunks@.len() && load.origin_ns + i * load.interval_ns <= t < load.origin_ns
                + (i + 1) * load.interval_ns,
            None => t < load.origin_ns || t >= load.origin_ns + load.chunks@.len()
                * load.interval_ns,
        },
{
    if t >= load.origin_ns {
        let x = t - load.origin_ns;
        let n = load.interval_ns as int;
        let q = x / n;
        let len = load.chunks@.len() as int;
        vstd::arithmetic::div_mod::lemma_fundamental_div_mod(x, n);
        assert(q * n <= x && x < (q + 1) * n && q >= 0) by (nonlinear_arith)
            requires
                x == n * q + x % n,
                0 <= x % n < n,
                x >= 0,
        ;
        if q >= len {
            assert(x >= len * n) by (nonlinear_arith)
                requires
                    q * n <= x,
                    q >= len,
                    n > 0,
            ;
        }
    }
}

/// The load of one more shard's interval adds to that interval alone: its
/// chunks, and one more share of the open streams.
pub proof fn law_a_shards_interval_adds_to_its_own(
    planned: Seq<PlannedInterval>,
    more: PlannedInterval,
    i: int,
)
    ensures
        merged_chunks(planned.push(more), i) == merged_chunks(planned, i) + if i == more.index {
            more.chunks as int
        } else {
            0
        },
        merged_shares(planned.push(more), i) == if i == more.index {
            merged_shares(planned, i).push((more.open, more.samples))
        } else {
            merged_shares(planned, i)
        },
        merged_len(planned.push(more)) >= merged_len(planned),
        merged_len(planned.push(more)) > more.index,
{
    assert(planned.push(more).drop_last() =~= planned);
}

/// Interval `i` starts `i` intervals after the origin, so each ends where the
/// next one starts.
pub proof fn law_intervals_adjoin(load: PlannedLoad, i: int)
    ensures
        load.start_of(0) == load.origin_ns,
        load.start_of(i + 1) == load.start_of(i) + load.interval_ns,
{
    let n = load.interval_ns as int;
    assert((i + 1) * n == i * n + n) by (nonlinear_arith);
    assert(0 * n == 0) by (nonlinear_arith);
}

/// A chunk is counted in the interval in which it is due, and in no other; a
/// stream whose first chunk lies in none of the intervals adds nothing.
pub proof fn law_a_chunk_counts_in_the_interval_it_is_due_in(
    load: PlannedLoad,
    first: u64,
    step: u64,
    i: int,
)
    requires
        load.wf(),
        0 <= i < load.chunks@.len(),
    ensures
        load.added(first, step, 1, i) == if load.origin_ns + i * load.interval_ns <= first
            < load.origin_ns + (i + 1) * load.interval_ns {
            1int
        } else {
            0
        },
        load.interval_of(first) is None ==> forall|n: u32| #[trigger] load.added(first, step, n, i)
            == 0,
{
    law_a_time_belongs_to_its_interval(load, first);
    reveal_with_fuel(due_between, 2);
    assert(0 * step == 0) by (nonlinear_arith);
    let n = load.interval_ns as int;
    let len = load.chunks@.len() as int;
    assert(0 <= i * n && (i + 1) * n <= len * n) by (nonlinear_arith)
        requires
            0 <= i,
            i + 1 <= len,
            n > 0,
    ;
}

/// The intervals of all shards are those of each, one shard after the other.
pub proof fn law_every_shard_adds_its_intervals(
    shards: Seq<Vec<PlannedInterval>>,
    more: Vec<PlannedInterval>,
)
    ensures
        all_planned(Seq::empty()).len() == 0,
        all_planned(shards.push(more)) == all_planned(shards) + more@,
{
    assert(shards.push(more).drop_last() =~= shards);
}

} // verus!
