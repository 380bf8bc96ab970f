//! Human-readable summaries.

use crate::loadgen::shard::Counters;
use crate::loadgen::validity;
use crate::loadgen::validity::{Interval, SelfcheckVerdict};
use crate::sorted;
use crate::sorted::position;
use crate::text;
use crate::text::push_decimal;
use vstd::prelude::*;
use vstd::string::StringExecFns;

verus! {

/// The errors of the intervals from `warmup` on, one after the other.
pub open spec fn all_errors(intervals: Seq<Interval>, warmup: u64) -> Seq<(Seq<char>, u64)>
    decreases intervals.len(),
{
    if intervals.len() == 0 {
        Seq::empty()
    } else {
        let rest = all_errors(intervals.drop_last(), warmup);
        if intervals.last().index >= warmup {
            rest + errors_of(intervals.last())
        } else {
            rest
        }
    }
}

/// The errors of an interval.
pub open spec fn errors_of(interval: Interval) -> Seq<(Seq<char>, u64)> {
    Seq::new(interval.errors@.len(), |i: int| (interval.errors@[i].0@, interval.errors@[i].1))
}

/// The kinds of the errors.
pub open spec fn kinds_of(errors: Seq<(Seq<char>, u64)>) -> Seq<Seq<char>> {
    Seq::new(errors.len(), |i: int| errors[i].0)
}

/// How many errors of the kind there are.
pub open spec fn count_of(errors: Seq<(Seq<char>, u64)>, kind: Seq<char>) -> nat
    decreases errors.len(),
{
    if errors.len() == 0 {
        0
    } else {
        count_of(errors.drop_last(), kind) + if errors.last().0 == kind {
            errors.last().1 as nat
        } else {
            0
        }
    }
}

/// The counts of every kind fit.
pub open spec fn countable(errors: Seq<(Seq<char>, u64)>) -> bool {
    forall|kind: Seq<char>| #[trigger] count_of(errors, kind) <= u64::MAX
}

/// Errors added up by kind.
#[derive(Debug)]
pub struct ErrorCounts {
    /// The kinds that occurred, in order.
    pub kinds: Vec<String>,
    /// How many there were of each.
    pub counts: Vec<u64>,
}

impl ErrorCounts {
    /// The counts are those of these errors.
    pub open spec fn counts_up(self, errors: Seq<(Seq<char>, u64)>) -> bool {
        &&& sorted::views(self.kinds@) == sorted::distinct_of(kinds_of(errors))
        &&& self.counts@.len() == self.kinds@.len()
        &&& forall|i: int|
            0 <= i < self.counts@.len() ==> #[trigger] self.counts@[i] == count_of(
                errors,
                self.kinds@[i]@,
            )
    }

    /// Adds one entry.
    fn add(&mut self, kind: &String, n: u64, Ghost(before): Ghost<Seq<(Seq<char>, u64)>>)
        requires
            old(self).counts_up(before),
            count_of(before, kind@) + n <= u64::MAX,
        ensures
            final(self).counts_up(before.push((kind@, n))),
    {
        let ghost after = before.push((kind@, n));
        let (at, found): (usize, bool) = position(&self.kinds, kind.as_str());
        proof {
            assert(after.drop_last() =~= before);
            assert(kinds_of(after).drop_last() =~= kinds_of(before));
            assert(kinds_of(after).last() == kind@);
            sorted::law_distinct_strings_are_sorted_and_complete(kinds_of(before));
            sorted::law_distinct_strings_are_sorted_and_complete(kinds_of(after));
        }
        let ghost was_kinds = self.kinds@;
        let ghost was_counts = self.counts@;
        if found {
            let count: u64 = self.counts[at] + n;
            self.counts.set(at, count);
            proof {
                let v = sorted::views(was_kinds);
                assert forall|i: int| 0 <= i < self.counts@.len() implies #[trigger] self.counts@[i]
                    == count_of(after, self.kinds@[i]@) by {
                    assert(was_counts[i] == count_of(before, was_kinds[i]@));
                    if i != at {
                        assert(v[i] != v[at as int]) by {
                            if i < at {
                                assert(sorted::before(v[i], v[at as int]));
                            } else {
                                assert(sorted::before(v[at as int], v[i]));
                            }
                            sorted::lemma_order(v[i], v[at as int]);
                        }
                    }
                }
            }
        } else {
            proof {
                lemma_not_counted(before, kind@, was_kinds, at as int);
            }
            self.kinds.insert(at, kind.clone());
            self.counts.insert(at, n);
            proof {
                assert(sorted::views(self.kinds@) =~= sorted::views(was_kinds).insert(
                    at as int,
                    kind@,
                ));
                assert forall|i: int| 0 <= i < self.counts@.len() implies #[trigger] self.counts@[i]
                    == count_of(after, self.kinds@[i]@) by {
                    if i < at {
                        assert(was_counts[i] == count_of(before, was_kinds[i]@));
                        assert(kinds_differ(was_kinds, kind@, i));
                    } else if i > at {
                        assert(was_counts[i - 1] == count_of(before, was_kinds[i - 1]@));
                        assert(kinds_differ(was_kinds, kind@, i - 1));
                    }
                }
            }
        }
    }
}

spec fn kinds_differ(kinds: Seq<String>, kind: Seq<char>, i: int) -> bool {
    kinds[i]@ != kind
}

proof fn lemma_not_counted(
    errors: Seq<(Seq<char>, u64)>,
    kind: Seq<char>,
    kinds: Seq<String>,
    at: int,
)
    requires
        0 <= at <= kinds.len(),
        sorted::views(kinds) == sorted::distinct_of(kinds_of(errors)),
        forall|k: int| at <= k < kinds.len() ==> sorted::before(kind, #[trigger] kinds[k]@),
        at > 0 ==> sorted::before(kinds[at - 1]@, kind),
    ensures
        forall|i: int| 0 <= i < kinds.len() ==> #[trigger] kinds_differ(kinds, kind, i),
        count_of(errors, kind) == 0,
{
    let v = sorted::views(kinds);
    sorted::law_distinct_strings_are_sorted_and_complete(kinds_of(errors));
    assert forall|i: int| 0 <= i < kinds.len() implies #[trigger] kinds_differ(kinds, kind, i) by {
        assert(v[i] == kinds[i]@);
        if i < at {
            if i < at - 1 {
                assert(v[at - 1] == kinds[at - 1]@);
                assert(sorted::before(v[i], v[at - 1]));
                sorted::lemma_order_chain(v[i], v[at - 1], kind);
            }
            sorted::lemma_order(kinds[i]@, kind);
        } else {
            sorted::lemma_order(kind, kinds[i]@);
        }
    }
    assert(!v.contains(kind)) by {
        if v.contains(kind) {
            let i = choose|i: int| 0 <= i < v.len() && v[i] == kind;
            assert(kinds_differ(kinds, kind, i));
        }
    }
    lemma_count_zero(errors, kind);
}

proof fn lemma_count_zero(errors: Seq<(Seq<char>, u64)>, kind: Seq<char>)
    requires
        !kinds_of(errors).contains(kind),
    ensures
        count_of(errors, kind) == 0,
    decreases errors.len(),
{
    if errors.len() > 0 {
        let front = errors.drop_last();
        assert(kinds_of(errors)[errors.len() - 1] == errors.last().0);
        assert(!kinds_of(front).contains(kind)) by {
            if kinds_of(front).contains(kind) {
                let i = choose|i: int| 0 <= i < front.len() && kinds_of(front)[i] == kind;
                assert(kinds_of(errors)[i] == kind);
            }
        }
        lemma_count_zero(front, kind);
    }
}

proof fn lemma_count_grows(errors: Seq<(Seq<char>, u64)>, n: int, kind: Seq<char>)
    requires
        0 <= n <= errors.len(),
    ensures
        count_of(errors.take(n), kind) <= count_of(errors, kind),
    decreases errors.len(),
{
    if n < errors.len() {
        lemma_count_grows(errors.drop_last(), n, kind);
        assert(errors.drop_last().take(n) =~= errors.take(n));
    } else {
        assert(errors.take(n) =~= errors);
    }
}

proof fn lemma_prefix(intervals: Seq<Interval>, warmup: u64, n: int)
    requires
        0 <= n <= intervals.len(),
    ensures
        all_errors(intervals.take(n), warmup).len() <= all_errors(intervals, warmup).len(),
        all_errors(intervals, warmup).take(
            all_errors(intervals.take(n), warmup).len() as int,
        ) == all_errors(intervals.take(n), warmup),
    decreases intervals.len(),
{
    let all = all_errors(intervals, warmup);
    let some = all_errors(intervals.take(n), warmup);
    if n < intervals.len() {
        lemma_prefix(intervals.drop_last(), warmup, n);
        assert(intervals.drop_last().take(n) =~= intervals.take(n));
        let rest = all_errors(intervals.drop_last(), warmup);
        assert(all.take(some.len() as int) =~= rest.take(some.len() as int));
    } else {
        assert(intervals.take(n) =~= intervals);
        assert(all.take(all.len() as int) =~= all);
    }
}

/// Adds up the errors of the intervals from `warmup_intervals` on, by kind.
pub fn error_counts(intervals: &[Interval], warmup_intervals: u64) -> (r: ErrorCounts)
    requires
        countable(all_errors(intervals@, warmup_intervals)),
    ensures
        r.counts_up(all_errors(intervals@, warmup_intervals)),
{
    let mut sums = ErrorCounts { kinds: Vec::new(), counts: Vec::new() };
    let mut i: usize = 0;
    proof {
        assert(intervals@.take(0) =~= Seq::empty());
        assert(sorted::views(sums.kinds@) =~= Seq::empty());
        assert(kinds_of(Seq::empty()) =~= Seq::empty());
    }
    while i < intervals.len()
        invariant
            i <= intervals@.len(),
            countable(all_errors(intervals@, warmup_intervals)),
            sums.counts_up(all_errors(intervals@.take(i as int), warmup_intervals)),
        decreases intervals@.len() - i,
    {
        let interval = &intervals[i];
        let ghost done = all_errors(intervals@.take(i as int), warmup_intervals);
        let ghost more = errors_of(*interval);
        let ghost all = all_errors(intervals@, warmup_intervals);
        proof {
            assert(intervals@.take(i + 1).drop_last() =~= intervals@.take(i as int));
            lemma_prefix(intervals@, warmup_intervals, i + 1);
        }
        if interval.index >= warmup_intervals {
            let mut k: usize = 0;
            assert(done + more.take(0) =~= done);
            while k < interval.errors.len()
                invariant
                    k <= interval.errors@.len(),
                    more == errors_of(*interval),
                    countable(all),
                    (done + more).len() <= all.len(),
                    all.take((done + more).len() as int) == done + more,
                    sums.counts_up(done + more.take(k as int)),
                decreases interval.errors@.len() - k,
            {
                let entry = &interval.errors[k];
                proof {
                    let next = done + more.take(k + 1);
                    let now = done + more.take(k as int);
                    assert(next =~= now.push((entry.0@, entry.1)));
                    assert((done + more).take(next.len() as int) =~= next);
                    lemma_count_grows(done + more, next.len() as int, entry.0@);
                    lemma_count_grows(all, (done + more).len() as int, entry.0@);
                    assert(count_of(all, entry.0@) <= u64::MAX);
                    assert(next.drop_last() =~= now);
                }
                sums.add(&entry.0, entry.1, Ghost(done + more.take(k as int)));
                k += 1;
            }
            assert(more.take(k as int) =~= more);
        }
        i += 1;
    }
    assert(intervals@.take(i as int) =~= intervals@);
    sums
}

/// What is said of the errors: `none`, or each kind with its count.
pub open spec fn errors_text(kinds: Seq<Seq<char>>, counts: Seq<u64>) -> Seq<char> {
    if kinds.len() == 0 {
        "none"@
    } else {
        sorted::joined(entries_text(kinds, counts), " "@)
    }
}

/// Each kind with its count.
pub open spec fn entries_text(kinds: Seq<Seq<char>>, counts: Seq<u64>) -> Seq<Seq<char>> {
    Seq::new(kinds.len(), |i: int| kinds[i] + "="@ + text::decimal_chars(counts[i] as nat))
}

/// What is said of the errors, added up by kind.
pub open spec fn summary_of(errors: Seq<(Seq<char>, u64)>) -> Seq<char> {
    let kinds = sorted::distinct_of(kinds_of(errors));
    errors_text(kinds, Seq::new(kinds.len(), |i: int| count_of(errors, kinds[i]) as u64))
}

impl ErrorCounts {
    /// `none`, or each kind with its count.
    pub fn describe(&self) -> (r: String)
        requires
            self.counts@.len() == self.kinds@.len(),
        ensures
            r@ == errors_text(sorted::views(self.kinds@), self.counts@),
    {
        if self.kinds.len() == 0 {
            return String::from_str("none");
        }
        let mut entries: Vec<String> = Vec::new();
        let mut i: usize = 0;
        while i < self.kinds.len()
            invariant
                i <= self.kinds@.len(),
                self.counts@.len() == self.kinds@.len(),
                entries@.len() == i,
                forall|k: int|
                    0 <= k < i ==> (#[trigger] entries@[k])@ == entries_text(
                        sorted::views(self.kinds@),
                        self.counts@,
                    )[k],
            decreases self.kinds@.len() - i,
        {
            let mut entry = self.kinds[i].clone();
            entry.append("=");
            push_decimal(&mut entry, self.counts[i]);
            entries.push(entry);
            i += 1;
        }
        assert(sorted::views(entries@) =~= entries_text(sorted::views(self.kinds@), self.counts@));
        sorted::join(&entries, " ")
    }
}

/// Requests and chunks of the intervals from `warmup` on.
pub open spec fn work_of(intervals: Seq<Interval>, warmup: u64) -> (nat, nat)
    decreases intervals.len(),
{
    if intervals.len() == 0 {
        (0, 0)
    } else {
        let rest = work_of(intervals.drop_last(), warmup);
        if intervals.last().index >= warmup {
            (rest.0 + intervals.last().requests as nat, rest.1 + intervals.last().chunks as nat)
        } else {
            rest
        }
    }
}

proof fn lemma_work(intervals: Seq<Interval>, warmup: u64, n: int)
    requires
        0 <= n <= intervals.len(),
    ensures
        work_of(intervals.take(n), warmup).0 <= work_of(intervals, warmup).0,
        work_of(intervals.take(n), warmup).1 <= work_of(intervals, warmup).1,
    decreases intervals.len(),
{
    if n < intervals.len() {
        lemma_work(intervals.drop_last(), warmup, n);
        assert(intervals.drop_last().take(n) =~= intervals.take(n));
    } else {
        assert(intervals.take(n) =~= intervals);
    }
}

proof fn lemma_count_adds(
    a: Seq<(Seq<char>, u64)>,
    b: Seq<(Seq<char>, u64)>,
    kind: Seq<char>,
)
    ensures
        count_of(a + b, kind) == count_of(a, kind) + count_of(b, kind),
    decreases b.len(),
{
    if b.len() == 0 {
        assert(a + b =~= a);
    } else {
        lemma_count_adds(a, b.drop_last(), kind);
        assert((a + b).drop_last() =~= a + b.drop_last());
    }
}

proof fn lemma_kind_within(errors: Seq<(String, u64)>, kind: Seq<char>)
    ensures
        count_of(Seq::new(errors.len(), |i: int| (errors[i].0@, errors[i].1)), kind)
            <= validity::errors_sum(errors, kind == "stale_retry"@),
    decreases errors.len(),
{
    let plain = Seq::new(errors.len(), |i: int| (errors[i].0@, errors[i].1));
    if errors.len() > 0 {
        let rest = errors.drop_last();
        lemma_kind_within(rest, kind);
        assert(plain.drop_last() =~= Seq::new(rest.len(), |i: int| (rest[i].0@, rest[i].1)));
    }
}

/// No kind of error is more frequent than the failures, or the stale
/// retries, that it belongs to.
proof fn lemma_kinds_within(intervals: Seq<Interval>, warmup: u64, kind: Seq<char>)
    ensures
        count_of(all_errors(intervals, warmup), kind) <= if kind == "stale_retry"@ {
            validity::outcome_sums(intervals, warmup).2
        } else {
            validity::outcome_sums(intervals, warmup).1
        },
        work_of(intervals, warmup).0 == validity::outcome_sums(intervals, warmup).0,
    decreases intervals.len(),
{
    if intervals.len() > 0 {
        let rest = intervals.drop_last();
        let last = intervals.last();
        lemma_kinds_within(rest, warmup, kind);
        lemma_kind_within(last.errors@, kind);
        lemma_count_adds(all_errors(rest, warmup), errors_of(last), kind);
    }
}

/// Whether the outcomes of the intervals from `warmup_intervals` on, and
/// their chunks, can be added up; the line on them can then be written.
pub fn is_tellable(intervals: &[Interval], warmup_intervals: u64) -> (r: bool)
    ensures
        r == (validity::countable(intervals@, warmup_intervals) && work_of(
            intervals@,
            warmup_intervals,
        ).1 <= u64::MAX),
        r ==> countable(all_errors(intervals@, warmup_intervals)) && work_of(
            intervals@,
            warmup_intervals,
        ).0 <= u64::MAX,
{
    let mut chunks: u64 = 0;
    let mut i: usize = 0;
    assert(intervals@.take(0) =~= Seq::empty());
    while i < intervals.len()
        invariant
            i <= intervals@.len(),
            chunks == work_of(intervals@.take(i as int), warmup_intervals).1,
        decreases intervals@.len() - i,
    {
        proof {
            assert(intervals@.take(i + 1).drop_last() =~= intervals@.take(i as int));
            lemma_work(intervals@, warmup_intervals, i + 1);
        }
        if intervals[i].index >= warmup_intervals {
            match chunks.checked_add(intervals[i].chunks) {
                Some(v) => {
                    chunks = v;
                },
                None => {
                    return false;
                },
            }
        }
        i += 1;
    }
    assert(intervals@.take(i as int) =~= intervals@);
    let r = validity::is_countable(intervals, warmup_intervals);
    proof {
        if r {
            assert forall|kind: Seq<char>| #[trigger] count_of(
                all_errors(intervals@, warmup_intervals),
                kind,
            ) <= u64::MAX by {
                validity::lemma_sums_are_counts(intervals@, warmup_intervals);
                lemma_kinds_within(intervals@, warmup_intervals, kind);
            }
            validity::lemma_sums_are_counts(intervals@, warmup_intervals);
            lemma_kinds_within(intervals@, warmup_intervals, Seq::empty());
        }
    }
    r
}

/// The line on what happened after the warmup.
pub fn outcome_line(intervals: &[Interval], warmup_intervals: u64) -> (r: String)
    requires
        countable(all_errors(intervals@, warmup_intervals)),
        work_of(intervals@, warmup_intervals).0 <= u64::MAX,
        work_of(intervals@, warmup_intervals).1 <= u64::MAX,
    ensures
        r@ == "after warmup: requests "@ + text::decimal_chars(
            work_of(intervals@, warmup_intervals).0,
        ) + ", chunks "@ + text::decimal_chars(work_of(intervals@, warmup_intervals).1)
            + ", errors "@ + summary_of(all_errors(intervals@, warmup_intervals)),
{
    let mut requests: u64 = 0;
    let mut chunks: u64 = 0;
    let mut i: usize = 0;
    assert(intervals@.take(0) =~= Seq::empty());
    while i < intervals.len()
        invariant
            i <= intervals@.len(),
            work_of(intervals@, warmup_intervals).0 <= u64::MAX,
            work_of(intervals@, warmup_intervals).1 <= u64::MAX,
            (requests as nat, chunks as nat) == work_of(
                intervals@.take(i as int),
                warmup_intervals,
            ),
        decreases intervals@.len() - i,
    {
        proof {
            assert(intervals@.take(i + 1).drop_last() =~= intervals@.take(i as int));
            lemma_work(intervals@, warmup_intervals, i + 1);
        }
        if intervals[i].index >= warmup_intervals {
            requests += intervals[i].requests;
            chunks += intervals[i].chunks;
        }
        i += 1;
    }
    assert(intervals@.take(i as int) =~= intervals@);
    let errors = error_counts(intervals, warmup_intervals);
    let mut out = String::from_str("after warmup: requests ");
    push_decimal(&mut out, requests);
    out.append(", chunks ");
    push_decimal(&mut out, chunks);
    out.append(", errors ");
    out.append(errors.describe().as_str());
    proof {
        let all = all_errors(intervals@, warmup_intervals);
        let kinds = sorted::distinct_of(kinds_of(all));
        assert(errors.counts@ =~= Seq::new(kinds.len(), |i: int| count_of(all, kinds[i]) as u64))
            by {
            assert forall|i: int| 0 <= i < kinds.len() implies errors.counts@[i] == count_of(
                all,
                kinds[i],
            ) by {
                assert(kinds[i] == errors.kinds@[i]@);
            }
        }
    }
    out
}

/// The line on the connections.
pub fn connections_line(c: &Counters) -> (r: String)
    ensures
        r@ == "connections opened "@ + text::decimal_chars(c.connections_opened as nat)
            + ", reused sends "@ + text::decimal_chars(c.reused_sends as nat) + ", stale retries "@
            + text::decimal_chars(c.stale_retries as nat) + ", idle closed by peer "@
            + text::decimal_chars(c.idle_closed as nat) + ", open at end "@ + text::decimal_chars(
            c.open_at_end as nat,
        ) + ", receives without kernel timestamp "@ + text::decimal_chars(
            c.rx_batches_without_timestamp as nat,
        ) + " of "@ + text::decimal_chars(c.rx_batches as nat),
{
    let mut out = String::from_str("connections opened ");
    push_decimal(&mut out, c.connections_opened);
    out.append(", reused sends ");
    push_decimal(&mut out, c.reused_sends);
    out.append(", stale retries ");
    push_decimal(&mut out, c.stale_retries);
    out.append(", idle closed by peer ");
    push_decimal(&mut out, c.idle_closed);
    out.append(", open at end ");
    push_decimal(&mut out, c.open_at_end);
    out.append(", receives without kernel timestamp ");
    push_decimal(&mut out, c.rx_batches_without_timestamp);
    out.append(" of ");
    push_decimal(&mut out, c.rx_batches);
    out
}

/// What a summary says of sends that were late or on new connections. Times
/// are written in microseconds.
#[derive(Debug)]
pub struct SendFigures {
    /// Sends on new connections.
    pub fresh_sends: u64,
    /// Median and 99th percentile of their time to the first chunk.
    pub fresh_ttft: Option<(String, String)>,
    /// Sends whose wake-up was late.
    pub late_wakeups: u64,
    /// Sends that waited behind other events.
    pub busy_loop_misses: u64,
    /// By how much the worst of these was late.
    pub worst_us: String,
}

/// What a summary says of the request slip. Times are written in
/// microseconds.
#[derive(Debug)]
pub struct SlipFigures {
    /// Samples.
    pub count: u64,
    /// Median.
    pub p50_us: String,
    /// 99th percentile.
    pub p99_us: String,
    /// 99.9th percentile.
    pub p999_us: String,
    /// Largest.
    pub max_us: String,
}

/// What is said of the time to the first chunk on new connections.
pub open spec fn fresh_text(figures: SendFigures) -> Seq<char> {
    match figures.fresh_ttft {
        None => Seq::empty(),
        Some((p50, p99)) => " (their TTFT p50 "@ + p50@ + " us, p99 "@ + p99@ + " us)"@,
    }
}

/// The line on sends that were late or on new connections.
pub fn sends_line(figures: &SendFigures) -> (r: String)
    requires
        figures.late_wakeups + figures.busy_loop_misses <= u64::MAX,
    ensures
        r@ == "after warmup: sends on new connections "@ + text::decimal_chars(
            figures.fresh_sends as nat,
        ) + fresh_text(*figures) + "; sends reached after their deadline "@ + text::decimal_chars(
            (figures.late_wakeups + figures.busy_loop_misses) as nat,
        ) + " ("@ + text::decimal_chars(figures.late_wakeups as nat) + " late wake-ups, "@
            + text::decimal_chars(figures.busy_loop_misses as nat)
            + " behind other events, worst by "@ + figures.worst_us@ + " us)"@,
{
    let mut out = String::from_str("after warmup: sends on new connections ");
    push_decimal(&mut out, figures.fresh_sends);
    let mut fresh = String::new();
    assert(fresh@ =~= Seq::empty());
    match &figures.fresh_ttft {
        None => {},
        Some((p50, p99)) => {
            fresh = String::from_str(" (their TTFT p50 ");
            fresh.append(p50.as_str());
            fresh.append(" us, p99 ");
            fresh.append(p99.as_str());
            fresh.append(" us)");
        },
    }
    out.append(fresh.as_str());
    out.append("; sends reached after their deadline ");
    push_decimal(&mut out, figures.late_wakeups + figures.busy_loop_misses);
    out.append(" (");
    push_decimal(&mut out, figures.late_wakeups);
    out.append(" late wake-ups, ");
    push_decimal(&mut out, figures.busy_loop_misses);
    out.append(" behind other events, worst by ");
    out.append(figures.worst_us.as_str());
    out.append(" us)");
    out
}

/// What is said of the request slip.
pub open spec fn slip_text(s: SlipFigures) -> Seq<char> {
    "request slip (send to the mock's receipt, pooled connections): count "@ + text::decimal_chars(
        s.count as nat,
    ) + ", p50 "@ + s.p50_us@ + " us, p99 "@ + s.p99_us@ + " us, p99.9 "@ + s.p999_us@
        + " us, max "@ + s.max_us@ + " us"@
}

/// What is said of slips below zero.
pub open spec fn negative_slips_text(n: u64) -> Seq<char> {
    "note: "@ + text::decimal_chars(n as nat)
        + " request slip(s) ended before they started: the load generator and the mock do not share a clock"@
}

/// What is said of requests that never completed.
pub open spec fn censored_text(c: Counters) -> Seq<char> {
    "censored: "@ + text::decimal_chars(c.censored_requests as nat)
        + " timed-out or unfinished request(s) recorded "@ + text::decimal_chars(
        c.censored_samples as nat,
    ) + " latency lower bound(s)"@
}

/// The lines on what is out of the ordinary, as far as it occurred.
pub open spec fn remarks_text(slip: Option<SlipFigures>, negative_slips: u64, c: Counters) -> Seq<
    Seq<char>,
> {
    (match slip {
        Some(s) => seq![slip_text(s)],
        None => Seq::empty(),
    }) + (if negative_slips > 0 {
        seq![negative_slips_text(negative_slips)]
    } else {
        Seq::empty()
    }) + (if c.censored_requests > 0 {
        seq![censored_text(c)]
    } else {
        Seq::empty()
    })
}

/// The lines on the request slip, slips below zero and requests that never
/// completed, as far as there are any.
pub fn remarks(slip: Option<&SlipFigures>, negative_slips: u64, c: &Counters) -> (r: Vec<String>)
    ensures
        sorted::views(r@) == remarks_text(
            match slip {
                Some(s) => Some(*s),
                None => None,
            },
            negative_slips,
            *c,
        ),
{
    let mut lines: Vec<String> = Vec::new();
    match slip {
        None => {},
        Some(s) => {
            let mut out = String::from_str(
                "request slip (send to the mock's receipt, pooled connections): count ",
            );
            push_decimal(&mut out, s.count);
            out.append(", p50 ");
            out.append(s.p50_us.as_str());
            out.append(" us, p99 ");
            out.append(s.p99_us.as_str());
            out.append(" us, p99.9 ");
            out.append(s.p999_us.as_str());
            out.append(" us, max ");
            out.append(s.max_us.as_str());
            out.append(" us");
            lines.push(out);
        },
    }
    let ghost one = sorted::views(lines@);
    proof {
        assert(one =~= match slip {
            Some(s) => seq![slip_text(*s)],
            None => Seq::empty(),
        });
    }
    if negative_slips > 0 {
        let mut out = String::from_str("note: ");
        push_decimal(&mut out, negative_slips);
        out.append(
            " request slip(s) ended before they started: the load generator and the mock do not share a clock",
        );
        lines.push(out);
    }
    let ghost two = sorted::views(lines@);
    proof {
        assert(two =~= one + if negative_slips > 0 {
            seq![negative_slips_text(negative_slips)]
        } else {
            Seq::empty()
        });
    }
    if c.censored_requests > 0 {
        let mut out = String::from_str("censored: ");
        push_decimal(&mut out, c.censored_requests);
        out.append(" timed-out or unfinished request(s) recorded ");
        push_decimal(&mut out, c.censored_samples);
        out.append(" latency lower bound(s)");
        lines.push(out);
    }
    proof {
        assert(sorted::views(lines@) =~= two + if c.censored_requests > 0 {
            seq![censored_text(*c)]
        } else {
            Seq::empty()
        });
    }
    lines
}

/// What the head of a summary names.
#[derive(Debug)]
pub struct Heading {
    /// The producing tool.
    pub tool: String,
    /// Scenario.
    pub scenario: String,
    /// Arm label.
    pub label: String,
    /// Repetition.
    pub pair_id: Option<String>,
    /// Target URL as given.
    pub target: String,
    /// Whether TLS was used.
    pub tls: bool,
}

/// The first line of a summary.
pub fn heading_line(h: &Heading) -> (r: String)
    ensures
        r@ == h.tool@ + " "@ + h.scenario@ + "  label="@ + h.label@ + (match h.pair_id {
            Some(id) => "  pair="@ + id@,
            None => Seq::empty(),
        }) + "  target="@ + h.target@ + (if h.tls {
            " (TLS)"@
        } else {
            Seq::empty()
        }),
{
    let mut out = h.tool.clone();
    out.append(" ");
    out.append(h.scenario.as_str());
    out.append("  label=");
    out.append(h.label.as_str());
    let mut pair = String::new();
    assert(pair@ =~= Seq::empty());
    match &h.pair_id {
        Some(id) => {
            pair = String::from_str("  pair=");
            pair.append(id.as_str());
        },
        None => {},
    }
    out.append(pair.as_str());
    out.append("  target=");
    out.append(h.target.as_str());
    let ghost said = out@;
    if h.tls {
        out.append(" (TLS)");
    }
    assert(said + Seq::<char>::empty() =~= said);
    out
}

/// The lines on the validity of the run: the verdict, and the reasons against
/// it.
pub fn validity_lines(valid: bool, reasons: &Vec<String>) -> (r: Vec<String>)
    ensures
        sorted::views(r@) == if valid {
            seq!["validity: VALID"@]
        } else {
            seq!["validity: INVALID"@] + Seq::new(
                reasons@.len(),
                |i: int| "  - "@ + reasons@[i]@,
            )
        },
{
    let mut lines: Vec<String> = Vec::new();
    if valid {
        lines.push(String::from_str("validity: VALID"));
        assert(sorted::views(lines@) =~= seq!["validity: VALID"@]);
        return lines;
    }
    lines.push(String::from_str("validity: INVALID"));
    let ghost all = seq!["validity: INVALID"@] + Seq::new(
        reasons@.len(),
        |i: int| "  - "@ + reasons@[i]@,
    );
    let mut i: usize = 0;
    while i < reasons.len()
        invariant
            i <= reasons@.len(),
            all == seq!["validity: INVALID"@] + Seq::new(
                reasons@.len(),
                |k: int| "  - "@ + reasons@[k]@,
            ),
            lines@.len() == i + 1,
            forall|k: int| 0 <= k < lines@.len() ==> (#[trigger] lines@[k])@ == all[k],
        decreases reasons@.len() - i,
    {
        let mut line = String::from_str("  - ");
        line.append(reasons[i].as_str());
        lines.push(line);
        i += 1;
    }
    assert(sorted::views(lines@) =~= all);
    lines
}

/// `s`, filled up with spaces to `width` characters.
pub open spec fn filled(s: Seq<char>, width: nat) -> Seq<char>
    decreases width - s.len(),
{
    if s.len() >= width {
        s
    } else {
        filled(s.push(' '), width)
    }
}

/// The line on a criterion of `selfcheck`.
pub fn criterion_line(pass: bool, name: &str, observed: &str, limit: &str) -> (r: String)
    ensures
        r@ == "  ["@ + (if pass {
            "x"@
        } else {
            " "@
        }) + "] "@ + filled(name@, 22) + " "@ + observed@ + " (limit "@ + limit@ + ")"@,
{
    let mut out = String::from_str("  [");
    if pass {
        out.append("x");
    } else {
        out.append(" ");
    }
    out.append("] ");
    let mut field = String::from_str(name);
    let mut n: usize = name.unicode_len();
    while n < 22
        invariant
            n == field@.len(),
            filled(name@, 22) == filled(field@, 22),
        decreases 22 - n,
    {
        field.push(' ');
        n += 1;
    }
    out.append(field.as_str());
    out.append(" ");
    out.append(observed);
    out.append(" (limit ");
    out.append(limit);
    out.append(")");
    out
}

/// The first line on a `selfcheck`.
pub fn selfcheck_line(verdict: &SelfcheckVerdict, target: u32, run_at: u32) -> (r: String)
    ensures
        r@ == "selfcheck at "@ + text::decimal_chars(run_at as nat)
            + " streams (twice the target of "@ + text::decimal_chars(target as nat) + "): "@
            + if verdict.pass {
            "PASS"@
        } else {
            "FAIL"@
        },
{
    let mut out = String::from_str("selfcheck at ");
    push_decimal(&mut out, run_at as u64);
    out.append(" streams (twice the target of ");
    push_decimal(&mut out, target as u64);
    out.append("): ");
    if verdict.pass {
        out.append("PASS");
    } else {
        out.append("FAIL");
    }
    out
}

/// The note on spans that could not be recorded as they were, if there are
/// any.
pub fn span_note(negative: u64, saturated: u64) -> (r: Option<String>)
    requires
        negative + saturated <= u64::MAX,
    ensures
        match r {
            Some(note) => negative + saturated > 0 && note@ == "note: "@ + text::decimal_chars(
                negative as nat,
            ) + " span(s) ended before they started (clock conversion) and "@
                + text::decimal_chars(saturated as nat) + " exceeded the histogram range"@,
            None => negative + saturated == 0,
        },
{
    if negative + saturated == 0 {
        return None;
    }
    let mut out = String::from_str("note: ");
    push_decimal(&mut out, negative);
    out.append(" span(s) ended before they started (clock conversion) and ");
    push_decimal(&mut out, saturated);
    out.append(" exceeded the histogram range");
    Some(out)
}

/// What is reported of the work and the errors is that of the intervals from
/// the end of the warmup on: one more interval adds its requests, chunks and
/// errors there, and nothing before.
pub proof fn law_only_intervals_after_the_warmup_are_reported(
    intervals: Seq<Interval>,
    more: Interval,
    warmup: u64,
)
    ensures
        ({
            let before = work_of(intervals, warmup);
            let after = work_of(intervals.push(more), warmup);
            let errors = all_errors(intervals.push(more), warmup);
            &&& more.index < warmup ==> after == before && errors == all_errors(intervals, warmup)
            &&& more.index >= warmup ==> {
                &&& after.0 == before.0 + more.requests
                &&& after.1 == before.1 + more.chunks
                &&& errors.len() == all_errors(intervals, warmup).len() + more.errors@.len()
                &&& errors.take(all_errors(intervals, warmup).len() as int) == all_errors(
                    intervals,
                    warmup,
                )
                &&& forall|i: int|
                    0 <= i < more.errors@.len() ==> (
                    #[trigger] errors[all_errors(intervals, warmup).len() + i]) == (
                        more.errors@[i].0@,
                        more.errors@[i].1,
                    )
            }
        }),
{
    assert(intervals.push(more).drop_last() =~= intervals);
    if more.index >= warmup {
        let errors = all_errors(intervals.push(more), warmup);
        let n = all_errors(intervals, warmup).len() as int;
        assert(errors.take(n) =~= all_errors(intervals, warmup));
        assert forall|i: int| 0 <= i < more.errors@.len() implies (#[trigger] errors[n + i]) == (
            more.errors@[i].0@,
            more.errors@[i].1,
        ) by {
            assert(errors_of(more)[i] == errors[n + i]);
        }
    }
}

/// One more entry of errors counts with its own kind, in full, and with no
/// other.
pub proof fn law_errors_count_with_their_own_kind(
    errors: Seq<(Seq<char>, u64)>,
    more: (Seq<char>, u64),
    kind: Seq<char>,
)
    ensures
        count_of(Seq::empty(), kind) == 0,
        count_of(errors.push(more), kind) == count_of(errors, kind) + if more.0 == kind {
            more.1 as int
        } else {
            0
        },
{
    assert(errors.push(more).drop_last() =~= errors);
}

/// The remarks are those that apply: a line on the slip where it is known, a
/// note on slips below zero where there are any, and a line on requests that
/// never completed where there are any.
pub proof fn law_a_remark_is_made_where_it_applies(
    slip: Option<SlipFigures>,
    negative_slips: u64,
    c: Counters,
)
    ensures
        ({
            let lines = remarks_text(slip, negative_slips, c);
            let n = (if slip is Some {
                1int
            } else {
                0
            }) + (if negative_slips > 0 {
                1int
            } else {
                0
            });
            &&& lines.len() == n + if c.censored_requests > 0 {
                1int
            } else {
                0
            }
            &&& slip matches Some(s) ==> lines[0] == slip_text(s)
            &&& negative_slips > 0 ==> lines[n - 1] == negative_slips_text(negative_slips)
            &&& c.censored_requests > 0 ==> lines[n] == censored_text(c)
        }),
{
}

/// Filling up a text keeps it and adds spaces behind it, up to the width.
pub proof fn law_filling_adds_spaces_up_to_the_width(s: Seq<char>, width: nat)
    ensures
        filled(s, width).len() == if s.len() >= width {
            s.len()
        } else {
            width
        },
        filled(s, width).take(s.len() as int) == s,
        forall|i: int|
            s.len() <= i < filled(s, width).len() ==> #[trigger] filled(s, width)[i] == ' ',
    decreases width - s.len(),
{
    if s.len() < width {
        let more = s.push(' ');
        law_filling_adds_spaces_up_to_the_width(more, width);
        let all = filled(more, width);
        assert(all.take(s.len() as int) =~= all.take(more.len() as int).take(s.len() as int));
        assert(more.take(s.len() as int) =~= s);
        assert(all[s.len() as int] == all.take(more.len() as int)[s.len() as int]);
    } else {
        assert(s.take(s.len() as int) =~= s);
    }
}

} // verus!
