use leitio::{Leitio, Segment, CAPACITY};

#[test]
fn round_trip_on_idle_queue() {
    let mut q: Leitio<u64> = Leitio::new();
    q.push(42);
    assert_eq!(q.pop(), Some(42));
    assert_eq!(q.pop(), None);
    assert_eq!(q.count(), 0);
}

#[test]
fn default_is_empty() {
    let mut q: Leitio<u8> = Leitio::default();
    assert_eq!(q.count(), 0);
    assert_eq!(q.live_segments(), 1);
    assert_eq!(q.pop(), None);
}

#[test]
fn empty_queue_stays_empty() {
    let mut q: Leitio<u32> = Leitio::new();
    for v in 0..5u32 {
        q.push(v);
    }
    for _ in 0..5 {
        assert!(q.pop().is_some());
    }
    for _ in 0..100 {
        assert_eq!(q.count(), 0);
        assert_eq!(q.pop(), None);
    }
}

#[test]
fn count_follows_contents() {
    let mut q: Leitio<u32> = Leitio::new();
    q.push(1);
    q.push(2);
    q.push(3);
    assert_eq!(q.count(), 3);
    q.pop();
    assert_eq!(q.count(), 2);
}

#[test]
fn twenty_in_order_then_empty() {
    let mut q: Leitio<usize> = Leitio::new();
    for v in 1..=20 {
        q.push(v);
    }
    for v in 1..=20 {
        assert_eq!(q.pop(), Some(v));
    }
    assert_eq!(q.pop(), None);
}

#[test]
fn two_thousand_copies_then_empty() {
    let mut q: Leitio<usize> = Leitio::new();
    for _ in 0..2_000 {
        q.push(200);
    }
    for _ in 0..2_000 {
        assert_eq!(q.pop(), Some(200));
    }
    assert_eq!(q.pop(), None);
}

#[test]
fn overflow_links_second_segment() {
    let mut q: Leitio<usize> = Leitio::new();
    for v in 0..CAPACITY {
        q.push(v);
    }
    assert_eq!(q.live_segments(), 1);
    q.push(CAPACITY);
    assert_eq!(q.live_segments(), 2);
    for v in 0..CAPACITY {
        assert_eq!(q.pop(), Some(v));
    }
    assert_eq!(q.live_segments(), 2);
    assert_eq!(q.retired_segments(), 0);
    assert_eq!(q.pop(), Some(CAPACITY));
    assert_eq!(q.live_segments(), 1);
    assert_eq!(q.retired_segments(), 1);
    assert_eq!(q.pop(), None);
}

#[test]
fn refill_after_drain() {
    let mut q: Leitio<usize> = Leitio::new();
    for v in 0..3_000 {
        q.push(v);
    }
    for v in 0..3_000 {
        assert_eq!(q.pop(), Some(v));
    }
    assert_eq!(q.pop(), None);
    q.push(7);
    assert_eq!(q.pop(), Some(7));
    assert_eq!(q.pop(), None);
    assert_eq!(q.retired_segments(), 2);
    assert_eq!(q.live_segments(), 1);
}

#[test]
fn allocation_stress_segments() {
    let mut q: Leitio<usize> = Leitio::new();
    let n = 10 * CAPACITY + 7;
    for v in 0..n {
        q.push(v);
    }
    assert_eq!(q.live_segments() + q.retired_segments(), 11);
    let drained = q.iter();
    assert_eq!(drained.len(), n);
    assert_eq!(q.retired_segments(), 10);
    assert_eq!(q.live_segments(), 1);
    assert_eq!(q.live_segments() + q.retired_segments(), 11);
}

#[test]
fn drain_keeps_order() {
    let mut q: Leitio<usize> = Leitio::new();
    for v in 0..2_500 {
        q.push(v);
    }
    let all = q.iter();
    assert_eq!(all, (0..2_500).collect::<Vec<usize>>());
    assert_eq!(q.count(), 0);
    assert_eq!(q.pop(), None);
}

#[test]
fn four_producers_one_consumer() {
    let mut q: Leitio<(usize, u64)> = Leitio::new();
    let mut received: usize = 0;
    let mut sum: u64 = 0;
    let mut last = [0u64; 4];
    let mut next = [1u64; 4];
    while received < 2_000_000 {
        for p in 0..4 {
            for _ in 0..3 {
                if next[p] <= 500_000 {
                    q.push((p, next[p]));
                    next[p] += 1;
                }
            }
        }
        for _ in 0..5 {
            if let Some((p, v)) = q.pop() {
                assert!(v > last[p]);
                last[p] = v;
                sum += v;
                received += 1;
            }
        }
    }
    assert_eq!(sum, 500_001_000_000);
    assert_eq!(q.pop(), None);
}

#[test]
fn two_producers_two_consumers_sets_agree() {
    let mut q: Leitio<u64> = Leitio::new();
    let mut sent: Vec<u64> = Vec::new();
    let mut got: Vec<u64> = Vec::new();
    let mut a: u64 = 1;
    let mut b: u64 = 1_000_000_001;
    for round in 0..50_000u64 {
        q.push(a);
        sent.push(a);
        a += 1;
        if round % 3 != 0 {
            q.push(b);
            sent.push(b);
            b += 1;
        }
        for _consumer in 0..2 {
            if round % 2 == 0 {
                if let Some(v) = q.pop() {
                    got.push(v);
                }
            }
        }
    }
    got.extend(q.iter());
    sent.sort();
    got.sort();
    assert_eq!(sent, got);
}

#[test]
fn conservation_of_values() {
    let mut q: Leitio<u32> = Leitio::new();
    let mut out: Vec<u32> = Vec::new();
    for v in 0..1_500u32 {
        q.push(v % 7);
        if v % 4 == 0 {
            out.push(q.pop().unwrap());
        }
    }
    let mut rest = q.iter();
    out.append(&mut rest);
    let mut expected: Vec<u32> = (0..1_500u32).map(|v| v % 7).collect();
    expected.sort();
    out.sort();
    assert_eq!(out, expected);
}

#[test]
fn stalled_slot_is_skipped() {
    let mut s: Segment<&str> = Segment::sentinel();
    let a = s.reserve_enqueue();
    let b = s.reserve_enqueue();
    assert_eq!((a, b), (0, 1));
    assert_eq!(s.try_store(b, "from b"), Ok(()));
    let first = s.reserve_dequeue();
    assert_eq!(first, a);
    assert_eq!(s.take(first), None);
    let second = s.reserve_dequeue();
    assert_eq!(second, b);
    assert_eq!(s.take(second), Some("from b"));
    assert!(s.looks_drained());
    assert_eq!(s.try_store(a, "from a"), Ok(()));
    assert!(s.looks_drained());
    assert_eq!(s.enq_index(), 2);
    assert_eq!(s.deq_index(), 2);
}

#[test]
fn store_into_filled_slot_hands_value_back() {
    let mut s: Segment<u8> = Segment::with_first(9);
    assert_eq!(s.try_store(0, 4), Err(4));
    assert_eq!(s.take(0), Some(9));
    assert_eq!(s.take(0), None);
}

#[test]
fn new_segment_counters() {
    let s: Segment<u8> = Segment::with_first(3);
    assert_eq!(s.enq_index(), 1);
    assert_eq!(s.deq_index(), 0);
    assert!(!s.looks_drained());
    let e: Segment<u8> = Segment::sentinel();
    assert_eq!(e.enq_index(), 0);
    assert!(e.looks_drained());
}

#[test]
fn overflow_reservation_past_capacity() {
    let mut s: Segment<u8> = Segment::sentinel();
    for k in 0..CAPACITY {
        assert_eq!(s.reserve_enqueue(), k);
    }
    assert_eq!(s.reserve_enqueue(), CAPACITY);
    assert_eq!(s.enq_index(), CAPACITY + 1);
}

#[test]
fn dropping_queue_releases_payloads() {
    let payload = std::rc::Rc::new(5u32);
    {
        let mut q: Leitio<std::rc::Rc<u32>> = Leitio::new();
        for _ in 0..(2 * CAPACITY + 3) {
            q.push(payload.clone());
        }
        for _ in 0..CAPACITY {
            q.pop();
        }
        assert_eq!(std::rc::Rc::strong_count(&payload), CAPACITY + 4);
    }
    assert_eq!(std::rc::Rc::strong_count(&payload), 1);
}

#[test]
fn stalled_producer_slot_is_skipped_by_queue() {
    let mut q: Leitio<u32> = Leitio::new();
    let stalled = q.reserve().unwrap();
    assert_eq!(stalled.index, 0);
    q.push(2);
    assert_eq!(q.count(), 1);
    assert_eq!(q.pop(), Some(2));
    assert_eq!(q.publish(stalled, 1), Err(1));
    assert_eq!(q.pop(), None);
    assert_eq!(q.count(), 0);
}

#[test]
fn published_reservation_keeps_reservation_order() {
    let mut q: Leitio<u32> = Leitio::new();
    q.push(1);
    let late = q.reserve().unwrap();
    q.push(3);
    q.push(4);
    assert_eq!(q.publish(late, 2), Ok(()));
    assert_eq!(q.publish(late, 9), Err(9));
    assert_eq!(q.iter(), vec![1, 2, 3, 4]);
}

#[test]
fn reservation_on_full_tail_reserves_nothing() {
    let mut q: Leitio<usize> = Leitio::new();
    for v in 0..CAPACITY {
        q.push(v);
    }
    assert!(q.reserve().is_none());
    q.push(CAPACITY);
    let t = q.reserve().unwrap();
    assert_eq!(t.index, 1);
    assert_eq!(q.publish(t, CAPACITY + 1), Ok(()));
    assert_eq!(q.count(), CAPACITY + 2);
    assert_eq!(q.iter(), (0..CAPACITY + 2).collect::<Vec<usize>>());
}

#[test]
fn consumers_pass_a_run_of_unfilled_slots() {
    let mut q: Leitio<usize> = Leitio::new();
    let mut tickets = Vec::new();
    for _ in 0..CAPACITY {
        tickets.push(q.reserve().unwrap());
    }
    q.push(77);
    assert_eq!(q.live_segments(), 2);
    assert_eq!(q.pop(), Some(77));
    assert_eq!(q.retired_segments(), 1);
    assert_eq!(q.publish(tickets[5], 5), Err(5));
    assert_eq!(q.pop(), None);
}

#[test]
fn ticket_for_retired_segment_is_refused() {
    let mut q: Leitio<usize> = Leitio::new();
    let t = q.reserve().unwrap();
    for v in 1..=CAPACITY {
        q.push(v);
    }
    for v in 1..CAPACITY {
        assert_eq!(q.pop(), Some(v));
    }
    assert_eq!(q.pop(), Some(CAPACITY));
    assert_eq!(q.retired_segments(), 1);
    assert_eq!(q.publish(t, 0), Err(0));
}
