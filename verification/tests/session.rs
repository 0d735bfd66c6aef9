use monitor_buffer::buffer::{Buffer, Entry};
use monitor_buffer::consumer::{consume_all, Consumer, Status};
use monitor_buffer::coordinator::{run_session, Coordinator, Phase};
use monitor_buffer::primes::gerar_primos;

fn total_processed(c: &Coordinator) -> usize {
    c.consumers.iter().map(|w| w.processed.len()).sum()
}

#[test]
fn conservation_all_pushed_items_are_processed() {
    let values: Vec<u64> = vec![4, 8, 15, 16, 23, 42];
    let c = run_session(3, &values, 2);
    assert_eq!(total_processed(&c), 3 * values.len());
    let mut seen: Vec<u64> = Vec::new();
    for w in &c.consumers {
        seen.extend_from_slice(&w.processed);
    }
    seen.sort();
    let mut expected: Vec<u64> = Vec::new();
    for _ in 0..3 {
        expected.extend_from_slice(&values);
    }
    expected.sort();
    assert_eq!(seen, expected);
}

#[test]
fn sentinel_exactness_every_consumer_terminates_once() {
    let values: Vec<u64> = vec![1, 2, 3];
    let c = run_session(2, &values, 4);
    assert_eq!(c.consumers.len(), 4);
    for w in &c.consumers {
        assert!(w.status == Status::Terminated);
    }
    assert_eq!(c.buffer.len(), 0);
}

#[test]
fn fifo_one_producer_one_consumer_keeps_order() {
    let values: Vec<u64> = vec![2, 3, 5, 7, 11];
    let c = run_session(1, &values, 1);
    assert_eq!(c.consumers[0].processed, values);
}

#[test]
fn fifo_consume_all_returns_source_order() {
    let mut buf = Buffer::new();
    for (k, v) in [10u64, 20, 30].iter().enumerate() {
        buf.push(Entry::Item { producer_id: k, value: *v });
    }
    buf.push_sentinels(1);
    let mut con = Consumer::new(0);
    consume_all(&mut buf, &mut con);
    assert!(con.status == Status::Terminated);
    assert_eq!(con.processed, vec![10, 20, 30]);
    assert!(buf.is_empty());
}

#[test]
fn no_sentinel_while_producing() {
    let mut c = Coordinator::new(2);
    c.push_item(1, 7);
    c.push_item(2, 9);
    // a consumer scheduled while producers still run can only pop items
    c.step(0);
    assert!(c.consumers[0].status == Status::Waiting);
    assert_eq!(c.consumers[0].processed, vec![7]);
    assert!(c.phase == Phase::Producing);
    c.finish_producers();
    assert!(c.phase == Phase::Shutdown);
    c.drain();
    assert_eq!(total_processed(&c), 2);
}

#[test]
fn liveness_various_shapes_complete() {
    for p in 0..4usize {
        for consumers in 1..4usize {
            for k in [0usize, 1, 5] {
                let values: Vec<u64> = (0..k as u64).collect();
                let c = run_session(p, &values, consumers);
                assert_eq!(total_processed(&c), p * k);
                assert!(c.consumers.iter().all(|w| w.status == Status::Terminated));
                assert_eq!(c.buffer.len(), 0);
            }
        }
    }
}

#[test]
fn concrete_scenario_two_producers_three_consumers_ten_primes() {
    let primes = gerar_primos(10);
    assert_eq!(primes, vec![2, 3, 5, 7, 11, 13, 17, 19, 23, 29]);
    let values: Vec<u64> = primes.iter().map(|&p| p as u64).collect();
    let c = run_session(2, &values, 3);
    // replication, not partition: both producers push the full sequence
    assert_eq!(total_processed(&c), 20);
    assert_eq!(c.consumers.len(), 3);
    for w in &c.consumers {
        assert!(w.status == Status::Terminated);
    }
    assert_eq!(c.buffer.len(), 0);
}

#[test]
fn boundary_no_producers_only_sentinels() {
    let values: Vec<u64> = Vec::new();
    let c = run_session(0, &values, 3);
    assert_eq!(total_processed(&c), 0);
    for w in &c.consumers {
        assert!(w.status == Status::Terminated);
        assert!(w.processed.is_empty());
    }
    assert_eq!(c.buffer.len(), 0);
}

#[test]
fn buffer_is_strict_fifo() {
    let mut buf = Buffer::new();
    buf.push(Entry::Item { producer_id: 1, value: 100 });
    buf.push(Entry::Item { producer_id: 2, value: 200 });
    assert_eq!(buf.len(), 2);
    assert!(!buf.is_empty());
    match buf.pop_front() {
        Entry::Item { producer_id, value } => {
            assert_eq!(producer_id, 1);
            assert_eq!(value, 100);
        },
        Entry::Sentinel => panic!("expected the oldest item"),
    }
    match buf.pop_front() {
        Entry::Item { producer_id, value } => {
            assert_eq!(producer_id, 2);
            assert_eq!(value, 200);
        },
        Entry::Sentinel => panic!("expected the second item"),
    }
    assert!(buf.is_empty());
}

#[test]
fn push_sentinels_appends_exactly_that_many() {
    let mut buf = Buffer::new();
    buf.push(Entry::Item { producer_id: 0, value: 5 });
    buf.push_sentinels(3);
    assert_eq!(buf.len(), 4);
    assert!(matches!(buf.pop_front(), Entry::Item { .. }));
    for _ in 0..3 {
        assert!(matches!(buf.pop_front(), Entry::Sentinel));
    }
}

#[test]
fn consumer_processes_items_and_stops_on_sentinel() {
    let mut con = Consumer::new(7);
    assert!(con.status == Status::Waiting);
    con.accept(Entry::Item { producer_id: 0, value: 41 });
    assert!(con.status == Status::Waiting);
    con.accept(Entry::Item { producer_id: 1, value: 43 });
    con.accept(Entry::Sentinel);
    assert!(con.status == Status::Terminated);
    assert_eq!(con.processed, vec![41, 43]);
    assert_eq!(con.id, 7);
}

#[test]
fn interleaved_schedule_still_conserves() {
    let mut c = Coordinator::new(2);
    c.push_item(1, 10);
    c.step(1);
    c.push_item(1, 20);
    c.push_item(2, 10);
    c.step(0);
    c.finish_producers();
    c.drain();
    assert_eq!(total_processed(&c), 3);
    let mut all: Vec<u64> = Vec::new();
    for w in &c.consumers {
        all.extend_from_slice(&w.processed);
    }
    all.sort();
    assert_eq!(all, vec![10, 10, 20]);
}
