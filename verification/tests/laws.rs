use ph_eventing::seq_ring::unsafe_cell_array;
use ph_eventing::PollStats;
use ph_eventing::SeqRing;

fn drain<const N: usize>(pushes: u32, max: usize) -> (PollStats, Vec<(u32, u32)>) {
    let ring = SeqRing::<u32, N>::new();
    let producer = ring.producer().unwrap();
    let mut consumer = ring.consumer().unwrap();
    for i in 0..pushes {
        producer.push(100 + i);
    }
    let mut seen = Vec::new();
    let stats = consumer.poll_up_to(max, |seq, v| seen.push((seq, *v)));
    (stats, seen)
}

#[test]
fn poll_after_pushes_delivers_the_last_capacity_items() {
    for n in 0u32..20 {
        let (stats, seen) = drain::<4>(n, n as usize);
        let kept = n.min(4);
        assert_eq!(stats.read, kept as usize);
        assert_eq!(stats.dropped, (n - kept) as usize);
        assert_eq!(stats.newest, n);
        let expected: Vec<(u32, u32)> = (n - kept + 1..=n).map(|s| (s, 100 + s - 1)).collect();
        assert_eq!(seen, expected);
    }
}

#[test]
fn poll_after_pushes_with_one_slot_keeps_only_the_newest() {
    let (stats, seen) = drain::<1>(7, 7);
    assert_eq!(stats.read, 1);
    assert_eq!(stats.dropped, 6);
    assert_eq!(stats.newest, 7);
    assert_eq!(seen, vec![(7, 106)]);
}

#[test]
fn poll_after_exactly_capacity_pushes_drops_nothing() {
    let (stats, seen) = drain::<4>(4, 4);
    assert_eq!(stats.read, 4);
    assert_eq!(stats.dropped, 0);
    assert_eq!(seen, vec![(1, 100), (2, 101), (3, 102), (4, 103)]);
}

#[test]
fn poll_up_to_stops_at_max() {
    let (stats, seen) = drain::<8>(5, 2);
    assert_eq!(stats.read, 2);
    assert_eq!(stats.dropped, 0);
    assert_eq!(seen, vec![(1, 100), (2, 101)]);
}

#[test]
fn poll_up_to_resumes_where_it_stopped() {
    let ring = SeqRing::<u32, 8>::new();
    let producer = ring.producer().unwrap();
    let mut consumer = ring.consumer().unwrap();
    for i in 0..5 {
        producer.push(i);
    }
    let mut seen = Vec::new();
    let first = consumer.poll_up_to(2, |seq, v| seen.push((seq, *v)));
    let second = consumer.poll_up_to(10, |seq, v| seen.push((seq, *v)));
    assert_eq!(first.read, 2);
    assert_eq!(second.read, 3);
    assert_eq!(second.dropped, 0);
    assert_eq!(seen, vec![(1, 0), (2, 1), (3, 2), (4, 3), (5, 4)]);
}

#[test]
fn polling_one_at_a_time_delivers_each_in_order() {
    let ring = SeqRing::<u32, 4>::new();
    let producer = ring.producer().unwrap();
    let mut consumer = ring.consumer().unwrap();
    for i in 0..4 {
        producer.push(50 + i);
    }
    for k in 1u32..=4 {
        let mut got = None;
        assert!(consumer.poll_one(|seq, v| got = Some((seq, *v))));
        assert_eq!(got, Some((k, 50 + k - 1)));
    }
    assert!(!consumer.poll_one(|_, _| panic!("nothing is left")));
    assert_eq!(consumer.dropped(), 0);
}

#[test]
fn poll_one_counts_the_drops_it_passes() {
    let ring = SeqRing::<u32, 2>::new();
    let producer = ring.producer().unwrap();
    let mut consumer = ring.consumer().unwrap();
    for i in 0..5 {
        producer.push(i);
    }
    let mut got = None;
    assert!(consumer.poll_one(|seq, v| got = Some((seq, *v))));
    assert_eq!(got, Some((4, 3)));
    assert_eq!(consumer.dropped(), 3);
}

#[test]
fn poll_up_to_zero_reports_the_published_sequence() {
    let ring = SeqRing::<u32, 4>::new();
    let producer = ring.producer().unwrap();
    let mut consumer = ring.consumer().unwrap();
    let empty = consumer.poll_up_to(0, |_, _| panic!("hook should not run"));
    assert_eq!((empty.read, empty.dropped, empty.newest), (0, 0, 0));
    for i in 0..9 {
        producer.push(i);
    }
    let stats = consumer.poll_up_to(0, |_, _| panic!("hook should not run"));
    assert_eq!((stats.read, stats.dropped), (0, 0));
    assert_eq!(stats.newest, ring.newest_seq());
    assert_eq!(stats.newest, 9);
    assert_eq!(consumer.dropped(), 0);
    // The probe has not moved the cursor: the backlog is still there.
    let after = consumer.poll_up_to(10, |_, _| {});
    assert_eq!((after.read, after.dropped), (4, 5));
}

#[test]
fn poll_on_an_empty_ring_reads_nothing() {
    let ring = SeqRing::<u32, 4>::new();
    let mut consumer = ring.consumer().unwrap();
    let stats = consumer.poll_up_to(3, |_, _| panic!("hook should not run"));
    assert_eq!((stats.read, stats.dropped, stats.newest), (0, 0, 0));
}

#[test]
fn latest_does_not_alter_the_next_poll() {
    let ring = SeqRing::<u32, 4>::new();
    let producer = ring.producer().unwrap();
    let mut consumer = ring.consumer().unwrap();
    producer.push(7);
    producer.push(8);
    producer.push(9);

    let mut newest = None;
    assert!(consumer.latest(|seq, v| newest = Some((seq, *v))));
    assert_eq!(newest, Some((3, 9)));

    let mut next = None;
    assert!(consumer.poll_one(|seq, v| next = Some((seq, *v))));
    assert_eq!(next, Some((1, 7)));
    assert_eq!(consumer.dropped(), 0);
}

#[test]
fn latest_follows_each_push() {
    let ring = SeqRing::<u32, 2>::new();
    let producer = ring.producer().unwrap();
    let consumer = ring.consumer().unwrap();
    for i in 0u32..7 {
        let seq = producer.push(i * 3);
        let mut got = None;
        assert!(consumer.latest(|s, v| got = Some((s, *v))));
        assert_eq!(got, Some((seq, i * 3)));
    }
}

#[test]
fn skip_to_latest_ignores_the_backlog_and_counts_no_drop() {
    let ring = SeqRing::<u32, 4>::new();
    let producer = ring.producer().unwrap();
    let mut consumer = ring.consumer().unwrap();
    for i in 0..25 {
        producer.push(i);
    }
    consumer.skip_to_latest();
    let mut got = None;
    assert!(consumer.poll_one(|seq, v| got = Some((seq, *v))));
    assert_eq!(got, Some((25, 24)));
    assert_eq!(consumer.dropped(), 0);
    assert!(!consumer.poll_one(|_, _| panic!("nothing is left")));
}

#[test]
fn skip_to_latest_on_an_empty_ring_changes_nothing() {
    let ring = SeqRing::<u32, 4>::new();
    let producer = ring.producer().unwrap();
    let mut consumer = ring.consumer().unwrap();
    consumer.skip_to_latest();
    assert!(!consumer.poll_one(|_, _| panic!("nothing is there")));
    producer.push(5);
    let mut got = None;
    assert!(consumer.poll_one(|seq, v| got = Some((seq, *v))));
    assert_eq!(got, Some((1, 5)));
}

#[test]
fn dropped_is_the_running_sum_of_poll_drops() {
    let ring = SeqRing::<u32, 2>::new();
    let producer = ring.producer().unwrap();
    let mut consumer = ring.consumer().unwrap();
    let mut sum = 0;
    for round in 1u32..6 {
        for i in 0..(2 + round) {
            producer.push(i);
        }
        let stats = consumer.poll_up_to(10, |_, _| {});
        assert_eq!(stats.dropped, round as usize);
        sum += stats.dropped;
        assert_eq!(consumer.dropped(), sum);
    }
    assert_eq!(consumer.dropped(), 15);
}

#[test]
fn reset_dropped_keeps_the_cursor() {
    let ring = SeqRing::<u32, 2>::new();
    let producer = ring.producer().unwrap();
    let mut consumer = ring.consumer().unwrap();
    for i in 0..5 {
        producer.push(i);
    }
    let stats = consumer.poll_up_to(1, |_, _| {});
    assert_eq!((stats.read, stats.dropped), (1, 3));
    consumer.reset_dropped();
    assert_eq!(consumer.dropped(), 0);
    let mut seen = Vec::new();
    let rest = consumer.poll_up_to(10, |seq, v| seen.push((seq, *v)));
    assert_eq!((rest.read, rest.dropped), (1, 0));
    assert_eq!(seen, vec![(5, 4)]);
}

#[test]
fn push_returns_consecutive_sequence_numbers() {
    let ring = SeqRing::<u32, 4>::new();
    let producer = ring.producer().unwrap();
    for expected in 1u32..=12 {
        assert_eq!(producer.push(0), expected);
        assert_eq!(ring.newest_seq(), expected);
        assert_eq!(ring.next_seq(), expected);
    }
}

#[test]
fn push_continues_from_one_after_the_wrap() {
    let ring = SeqRing::<u32, 4>::with_counters(u32::MAX - 1, 0);
    let producer = ring.producer().unwrap();
    assert_eq!(producer.push(1), u32::MAX);
    assert_eq!(producer.push(2), 1);
    assert_eq!(producer.push(3), 2);
    assert_eq!(ring.next_seq(), 2);
    assert_eq!(ring.newest_seq(), 2);
}

#[test]
fn consumer_crosses_the_wrap() {
    let ring = SeqRing::<u32, 8>::with_counters(u32::MAX - 2, 0);
    let producer = ring.producer().unwrap();
    let mut consumer = ring.consumer().unwrap();
    assert_eq!(producer.push(10), u32::MAX - 1);
    consumer.skip_to_latest();
    assert_eq!(producer.push(11), u32::MAX);
    assert_eq!(producer.push(12), 1);
    assert_eq!(producer.push(13), 2);

    let mut seen = Vec::new();
    let stats = consumer.poll_up_to(10, |seq, v| seen.push((seq, *v)));
    // Between MAX and 1 the cursor passes 0, which no write carries.
    assert_eq!(seen, vec![(u32::MAX - 1, 10), (u32::MAX, 11), (1, 12), (2, 13)]);
    assert_eq!(stats.read, 4);
    assert_eq!(stats.dropped, 1);
    assert_eq!(stats.newest, 2);
}

#[test]
fn second_producer_is_refused_until_release() {
    let ring = SeqRing::<u32, 4>::new();
    let first = ring.producer().unwrap();
    assert_eq!(first.push(1), 1);
    assert!(ring.producer().is_none());
    assert!(ring.producer().is_none());
    // The refusals have not disturbed the ring.
    assert_eq!(first.push(2), 2);
    assert_eq!(ring.newest_seq(), 2);
    first.release();
    let again = ring.producer().unwrap();
    assert_eq!(again.push(3), 3);
}

#[test]
fn second_consumer_is_refused_until_release() {
    let ring = SeqRing::<u32, 4>::new();
    let producer = ring.producer().unwrap();
    producer.push(1);
    producer.push(2);
    let mut first = ring.consumer().unwrap();
    assert!(ring.consumer().is_none());
    assert!(first.poll_one(|_, _| {}));
    first.release();
    // A new handle starts from the beginning, with nothing counted.
    let mut again = ring.consumer().unwrap();
    assert_eq!(again.dropped(), 0);
    let mut seen = Vec::new();
    let stats = again.poll_up_to(10, |seq, v| seen.push((seq, *v)));
    assert_eq!(stats.read, 2);
    assert_eq!(seen, vec![(1, 1), (2, 2)]);
}

#[test]
fn producer_and_consumer_are_admitted_independently() {
    let ring = SeqRing::<u32, 4>::new();
    let consumer = ring.consumer().unwrap();
    let producer = ring.producer().unwrap();
    assert!(ring.consumer().is_none());
    assert!(ring.producer().is_none());
    consumer.release();
    assert!(ring.producer().is_none());
    assert!(ring.consumer().is_some());
    producer.release();
}

#[test]
fn read_seq_inner_hits_only_what_is_in_its_slot() {
    let ring = SeqRing::<u32, 4>::new();
    let producer = ring.producer().unwrap();
    assert_eq!(ring.read_seq_inner(1), None);
    for i in 0..6 {
        producer.push(i * 10);
    }
    assert_eq!(ring.read_seq_inner(1), None);
    assert_eq!(ring.read_seq_inner(2), None);
    assert_eq!(ring.read_seq_inner(3), Some(20));
    assert_eq!(ring.read_seq_inner(6), Some(50));
    assert_eq!(ring.read_seq_inner(7), None);
    assert_eq!(ring.read_seq_inner(0), None);
}

#[test]
fn nothing_is_read_under_sequence_zero() {
    let ring = SeqRing::<u32, 4>::with_counters(0, 0);
    assert_eq!(ring.copy_out(0), None);
    assert_eq!(ring.read_seq_inner(0), None);
    let producer = ring.producer().unwrap();
    for i in 0..9 {
        producer.push(i);
    }
    assert_eq!(ring.copy_out(0), None);
    assert_eq!(ring.read_seq_inner(0), None);
}

#[test]
fn confirm_hands_back_the_copy_while_the_tag_stands() {
    let ring = SeqRing::<u32, 4>::new();
    let producer = ring.producer().unwrap();
    let seq = producer.push(7);
    let copied = ring.copy_out(seq).unwrap();
    producer.push(8);
    producer.push(9);
    producer.push(10);
    assert_eq!(ring.confirm(seq, copied), Some(7));
    producer.push(11);
    assert_eq!(ring.confirm(seq, copied), None);
    assert_eq!(ring.copy_out(seq), None);
}

#[test]
fn new_ring_has_zero_counters_and_empty_slots() {
    let ring = SeqRing::<u64, 3>::new();
    assert_eq!(ring.newest_seq(), 0);
    assert_eq!(ring.next_seq(), 0);
    for seq in 0u32..8 {
        assert_eq!(ring.read_seq_inner(seq), None);
    }
}

#[test]
fn with_counters_starts_the_ring_at_the_given_counters() {
    let ring = SeqRing::<u32, 4>::with_counters(5, 9);
    assert_eq!(ring.next_seq(), 5);
    assert_eq!(ring.newest_seq(), 9);
    for seq in 0u32..12 {
        assert_eq!(ring.read_seq_inner(seq), None);
    }
    // No handle is live in a ring just made.
    assert!(ring.producer().is_some());
    assert!(ring.consumer().is_some());
}

#[test]
fn unsafe_cell_array_has_one_empty_cell_per_slot() {
    let cells = unsafe_cell_array::<u32, 5>();
    assert_eq!(cells.len(), 5);
    for cell in cells {
        assert_eq!(cell.into_inner(), None);
    }
}

#[test]
fn ring_carries_values_of_any_copy_type() {
    let ring = SeqRing::<(u8, i64), 2>::new();
    let producer = ring.producer().unwrap();
    let mut consumer = ring.consumer().unwrap();
    producer.push((1, -5));
    producer.push((2, 6));
    producer.push((3, -7));
    let mut seen = Vec::new();
    let stats = consumer.poll_up_to(5, |seq, v| seen.push((seq, *v)));
    assert_eq!((stats.read, stats.dropped, stats.newest), (2, 1, 3));
    assert_eq!(seen, vec![(2, (2, 6)), (3, (3, -7))]);
}
