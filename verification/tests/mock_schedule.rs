use brisk_bench::mock::schedule::{chunk_time, Entry, Schedule};

fn entry(t_sched: u64, stream: u64, seq: u32) -> Entry {
    Entry { t_sched, stream, seq, slot: 0 }
}

#[test]
fn entries_order_by_time_then_stream_then_seq() {
    let mut heap = Schedule::new();
    heap.push(entry(20, 1, 0));
    heap.push(entry(10, 2, 5));
    heap.push(entry(10, 2, 4));
    heap.push(entry(10, 1, 9));
    let order: Vec<_> =
        std::iter::from_fn(|| heap.pop().map(|e| (e.t_sched, e.stream, e.seq))).collect();
    assert_eq!(order, [(10, 1, 9), (10, 2, 4), (10, 2, 5), (20, 1, 0)]);
}

#[test]
fn chunk_times_follow_the_interval_and_saturate() {
    assert_eq!(chunk_time(1_000, 5, 0), 1_000);
    assert_eq!(chunk_time(1_000, 5, 3), 16_000);
    assert_eq!(chunk_time(u64::MAX - 1, 5, 3), u64::MAX);
}

#[test]
fn huge_intervals_saturate_but_the_first_chunk_is_on_time() {
    assert_eq!(chunk_time(7, u64::MAX, 0), 7);
    assert_eq!(chunk_time(7, u64::MAX, 1), u64::MAX);
}

#[test]
fn a_dropped_stream_leaves_the_others() {
    let mut schedule = Schedule::new();
    schedule.push(entry(10, 1, 0));
    schedule.push(entry(20, 2, 0));
    schedule.push(entry(30, 3, 0));
    schedule.drop_stream(2);
    assert_eq!(schedule.peek(), Some(entry(10, 1, 0)));
    assert_eq!(schedule.pop(), Some(entry(10, 1, 0)));
    assert_eq!(schedule.pop(), Some(entry(30, 3, 0)));
    assert_eq!(schedule.pop(), None);
}
