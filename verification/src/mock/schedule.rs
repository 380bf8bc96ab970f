//! The emission schedule of a shard: planned emissions, earliest first.

use crate::time;
use crate::time::saturating_product;
use vstd::prelude::*;

verus! {

/// One planned emission. Ordered by `(t_sched, stream, seq)`; `slot` is
/// determined by `stream` and only locates the connection.
#[derive(Debug, Clone, Copy, PartialEq, Eq, Structural)]
pub struct Entry {
    /// Planned time, monotonic nanoseconds.
    pub t_sched: u64,
    /// Response the emission belongs to.
    pub stream: u64,
    /// Chunk number.
    pub seq: u32,
    /// Connection slot.
    pub slot: usize,
}

impl Entry {
    /// This entry is due before `other`, or is the same.
    pub open spec fn not_after(self, other: Entry) -> bool {
        self.t_sched < other.t_sched || (self.t_sched == other.t_sched && (self.stream
            < other.stream || (self.stream == other.stream && (self.seq < other.seq || (self.seq
            == other.seq && self.slot <= other.slot)))))
    }

    /// Whether this entry is due before `other`, or is the same.
    pub fn is_not_after(&self, other: &Entry) -> (r: bool)
        ensures
            r == self.not_after(*other),
    {
        if self.t_sched != other.t_sched {
            self.t_sched < other.t_sched
        } else if self.stream != other.stream {
            self.stream < other.stream
        } else if self.seq != other.seq {
            self.seq < other.seq
        } else {
            self.slot <= other.slot
        }
    }
}

/// Monotonic time of chunk `seq` of a stream whose first chunk is due at
/// `t_first`: one interval per chunk, saturating at the end of time.
pub fn chunk_time(t_first: u64, interval_us: u64, seq: u32) -> (r: u64)
    ensures
        r == time::capped(t_first + interval_us * 1_000 * seq),
{
    let interval_ns: u64 = saturating_product(interval_us, 1_000);
    let offset: u64 = saturating_product(interval_ns, seq as u64);
    proof {
        lemma_capped_twice(t_first, interval_us, seq);
    }
    t_first.saturating_add(offset)
}

proof fn lemma_capped_twice(t_first: u64, interval_us: u64, seq: u32)
    ensures
        time::capped(t_first + time::capped(time::capped(interval_us * 1_000) * seq)) == time::capped(
            t_first + interval_us * 1_000 * seq,
        ),
{
    let exact = interval_us * 1_000;
    if exact > u64::MAX {
        if seq == 0 {
            assert(exact * seq == 0) by (nonlinear_arith)
                requires
                    seq == 0,
            ;
            assert(u64::MAX * seq == 0) by (nonlinear_arith)
                requires
                    seq == 0,
            ;
        } else {
            assert(exact * seq >= exact) by (nonlinear_arith)
                requires
                    seq >= 1,
                    exact >= 0,
            ;
            assert(u64::MAX * seq >= u64::MAX) by (nonlinear_arith)
                requires
                    seq >= 1,
            ;
        }
    }
}

/// The chunks of a stream are due in the order of their numbers, one interval
/// apart until the end of time.
pub proof fn law_chunks_are_due_one_interval_apart(t_first: u64, interval_us: u64, seq: u32)
    requires
        seq < u32::MAX,
    ensures
        time::capped(t_first + interval_us * 1_000 * seq) <= time::capped(
            t_first + interval_us * 1_000 * (seq + 1),
        ),
        time::capped(t_first + interval_us * 1_000 * (seq + 1)) == time::capped(
            time::capped(t_first + interval_us * 1_000 * seq) + interval_us * 1_000,
        ),
{
    let step = interval_us * 1_000;
    assert(step * (seq + 1) == step * seq + step) by (nonlinear_arith);
    assert(step * seq >= 0) by (nonlinear_arith)
        requires
            step >= 0,
            seq >= 0,
    ;
}

/// Planned emissions in order; the earliest is the last of `entries`.
#[derive(Debug)]
pub struct Schedule {
    /// The entries, latest first.
    pub entries: Vec<Entry>,
}

/// No entry is due before one that follows it.
pub open spec fn latest_first(entries: Seq<Entry>) -> bool {
    forall|i: int, j: int|
        0 <= i <= j < entries.len() ==> (#[trigger] entries[j]).not_after(#[trigger] entries[i])
}

/// No two entries belong to the same response.
pub open spec fn one_per_stream(entries: Seq<Entry>) -> bool {
    forall|i: int, j: int|
        0 <= i < j < entries.len() ==> (#[trigger] entries[i]).stream != (
        #[trigger] entries[j]).stream
}

/// A sequence with one more element contains it and what it contained.
pub proof fn lemma_contains_push(s: Seq<Entry>, last: Entry, e: Entry)
    ensures
        s.push(last).contains(e) <==> s.contains(e) || e == last,
{
    if s.contains(e) {
        let i = choose|i: int| 0 <= i < s.len() && s[i] == e;
        assert(s.push(last)[i] == e);
    }
    if e == last {
        assert(s.push(last)[s.len() as int] == e);
    }
    if s.push(last).contains(e) && e != last {
        let i = choose|i: int| 0 <= i < s.push(last).len() && s.push(last)[i] == e;
        assert(s[i] == e);
    }
}

impl Schedule {
    /// The entries stand in order.
    pub open spec fn wf(&self) -> bool {
        latest_first(self.entries@)
    }

    /// An empty schedule.
    pub fn new() -> (r: Self)
        ensures
            r.wf(),
            r.entries@.len() == 0,
    {
        Schedule { entries: Vec::new() }
    }

    /// The earliest entry.
    pub fn peek(&self) -> (r: Option<Entry>)
        requires
            self.wf(),
        ensures
            r is None <==> self.entries@.len() == 0,
            r matches Some(e) ==> self.entries@.contains(e) && forall|i: int|
                0 <= i < self.entries@.len() ==> e.not_after(#[trigger] self.entries@[i]),
            r matches Some(e) ==> e == self.entries@.last(),
    {
        let n: usize = self.entries.len();
        if n == 0 {
            None
        } else {
            Some(self.entries[n - 1])
        }
    }

    /// Takes out the earliest entry.
    pub fn pop(&mut self) -> (r: Option<Entry>)
        requires
            old(self).wf(),
        ensures
            final(self).wf(),
            r is None <==> old(self).entries@.len() == 0,
            r is None ==> final(self).entries@ == old(self).entries@,
            r matches Some(e) ==> {
                &&& old(self).entries@ == final(self).entries@.push(e)
                &&& forall|i: int|
                    0 <= i < final(self).entries@.len() ==> e.not_after(
                        #[trigger] final(self).entries@[i],
                    )
            },
    {
        let r = self.entries.pop();
        proof {
            if let Some(e) = r {
                assert(self.entries@.push(e) =~= old(self).entries@);
            }
        }
        r
    }

    /// Adds an entry at its place.
    pub fn push(&mut self, entry: Entry)
        requires
            old(self).wf(),
        ensures
            final(self).wf(),
            exists|at: int|
                0 <= at <= old(self).entries@.len() && #[trigger] old(self).entries@.insert(
                    at,
                    entry,
                ) == final(self).entries@,
    {
        let mut lo: usize = 0;
        let mut hi: usize = self.entries.len();
        while lo < hi
            invariant
                lo <= hi <= self.entries@.len(),
                self.entries@ == old(self).entries@,
                self.wf(),
                forall|k: int| 0 <= k < lo ==> entry.not_after(#[trigger] self.entries@[k]),
                forall|k: int|
                    hi <= k < self.entries@.len() ==> (#[trigger] self.entries@[k]).not_after(
                        entry,
                    ),
            decreases hi - lo,
        {
            let mid: usize = lo + (hi - lo) / 2;
            if self.entries[mid].is_not_after(&entry) {
                hi = mid;
            } else {
                lo = mid + 1;
            }
        }
        self.entries.insert(lo, entry);
        assert(old(self).entries@.insert(lo as int, entry) == self.entries@);
    }

    /// Drops every entry of `stream`.
    pub fn drop_stream(&mut self, stream: u64)
        requires
            old(self).wf(),
        ensures
            final(self).wf(),
            final(self).entries@ == old(self).entries@.filter(|e: Entry| e.stream != stream),
            forall|e: Entry| #[trigger]
                final(self).entries@.contains(e) <==> old(self).entries@.contains(e) && e.stream
                    != stream,
            one_per_stream(old(self).entries@) ==> one_per_stream(final(self).entries@),
    {
        let ghost keep = |e: Entry| e.stream != stream;
        let mut kept: Vec<Entry> = Vec::new();
        let mut i: usize = 0;
        assert(self.entries@.take(0).filter(keep) =~= Seq::<Entry>::empty());
        while i < self.entries.len()
            invariant
                i <= self.entries@.len(),
                self.entries@ == old(self).entries@,
                self.wf(),
                keep == (|e: Entry| e.stream != stream),
                kept@ == self.entries@.take(i as int).filter(keep),
                latest_first(kept@),
                one_per_stream(self.entries@) ==> one_per_stream(kept@),
                forall|e: Entry| #[trigger]
                    kept@.contains(e) <==> self.entries@.take(i as int).contains(e) && e.stream
                        != stream,
                forall|k: int, m: int|
                    0 <= k < kept@.len() && i <= m < self.entries@.len()
                        ==> (#[trigger] self.entries@[m]).not_after(#[trigger] kept@[k]),
            decreases self.entries@.len() - i,
        {
            let entry = self.entries[i];
            proof {
                let t = self.entries@.take(i + 1);
                assert(t.drop_last() =~= self.entries@.take(i as int));
                reveal(Seq::filter);
                if one_per_stream(self.entries@) {
                    assert forall|k: int| 0 <= k < kept@.len() implies (
                    #[trigger] kept@[k]).stream != entry.stream by {
                        assert(kept@.contains(kept@[k]));
                        let m = choose|m: int|
                            0 <= m < i && self.entries@.take(i as int)[m] == kept@[k];
                        assert(self.entries@[m].stream != self.entries@[i as int].stream);
                    }
                }
            }
            let ghost before = kept@;
            if entry.stream != stream {
                kept.push(entry);
            }
            i += 1;
            proof {
                let t = self.entries@.take(i as int);
                assert forall|e: Entry| #[trigger] kept@.contains(e) <==> t.contains(e) && e.stream
                    != stream by {
                    lemma_contains_push(self.entries@.take(i - 1), entry, e);
                    lemma_contains_push(before, entry, e);
                    assert(t =~= self.entries@.take(i - 1).push(entry));
                }
            }
        }
        assert(self.entries@.take(i as int) =~= self.entries@);
        self.entries = kept;
    }
}

/// Taking out one entry after the other, the earliest each time, gives
/// `taken` and leaves `after`.
pub open spec fn takes_out(before: Seq<Entry>, taken: Seq<Entry>, after: Seq<Entry>) -> bool
    decreases taken.len(),
{
    if taken.len() == 0 {
        after == before
    } else {
        &&& before.len() > 0
        &&& taken[0] == before.last()
        &&& takes_out(before.drop_last(), taken.skip(1), after)
    }
}

/// Entries are taken out in the order of their times, those of one time in
/// the order of their responses, and those of one response in the order of
/// their numbers; none that stays is due before one that was taken.
pub proof fn law_entries_are_taken_earliest_first(
    before: Seq<Entry>,
    taken: Seq<Entry>,
    after: Seq<Entry>,
)
    requires
        latest_first(before),
        takes_out(before, taken, after),
    ensures
        forall|i: int, j: int|
            0 <= i <= j < taken.len() ==> (#[trigger] taken[i]).not_after(#[trigger] taken[j]),
        forall|i: int, j: int|
            0 <= i < taken.len() && 0 <= j < after.len() ==> (#[trigger] taken[i]).not_after(
                #[trigger] after[j],
            ),
        before == after + taken.reverse(),
    decreases taken.len(),
{
    if taken.len() > 0 {
        let rest = before.drop_last();
        let later = taken.skip(1);
        assert(latest_first(rest)) by {
            assert forall|i: int, j: int| 0 <= i <= j < rest.len() implies (
            #[trigger] rest[j]).not_after(#[trigger] rest[i]) by {
                assert(before[j].not_after(before[i]));
            }
        }
        law_entries_are_taken_earliest_first(rest, later, after);
        assert(taken.reverse() =~= later.reverse().push(taken[0])) by {
            assert(taken =~= seq![taken[0]] + later);
        }
        assert(before =~= rest.push(taken[0]));
        assert(before =~= after + taken.reverse());
        assert forall|e: Entry| #[trigger] rest.contains(e) implies taken[0].not_after(e) by {
            let i = choose|i: int| 0 <= i < rest.len() && rest[i] == e;
            assert(before[before.len() - 1].not_after(before[i]));
        }
        assert forall|i: int, j: int| 0 <= i <= j < taken.len() implies (
        #[trigger] taken[i]).not_after(#[trigger] taken[j]) by {
            if i > 0 {
                assert(later[i - 1].not_after(later[j - 1]));
            } else if j > 0 {
                let at = after.len() + (later.len() - j);
                assert(rest[at] == later.reverse()[later.len() - j]);
                assert(later.reverse()[later.len() - j] == taken[j]);
                assert(rest.contains(taken[j]));
            }
        }
        assert forall|i: int, j: int| 0 <= i < taken.len() && 0 <= j < after.len() implies (
        #[trigger] taken[i]).not_after(#[trigger] after[j]) by {
            if i > 0 {
                assert(later[i - 1].not_after(after[j]));
            } else {
                assert(rest[j] == after[j]);
                assert(rest.contains(after[j]));
            }
        }
    } else {
        assert(before =~= after + taken.reverse());
    }
}

/// Of two entries one is due first, and only an entry itself is due neither
/// before nor after it.
pub proof fn law_any_two_entries_are_ordered(a: Entry, b: Entry)
    ensures
        a.not_after(b) || b.not_after(a),
        a.not_after(b) && b.not_after(a) ==> a == b,
{
}

} // verus!
