use ossim::iosched::{io_operation, IoScheduler, CLOOK, FIFO, FLOOK, LOOK, SSTF};
use ossim::iosim::{compute_stats, run_simulation};

fn req(time: usize, track: usize) -> io_operation {
    io_operation { time, track, start_time: None, completed_time: None }
}

fn starts(ops: &Vec<io_operation>) -> Vec<usize> {
    ops.iter().map(|o| o.start_time.unwrap()).collect()
}

fn finishes(ops: &Vec<io_operation>) -> Vec<usize> {
    ops.iter().map(|o| o.completed_time.unwrap()).collect()
}

#[test]
fn fifo_serves_in_arrival_order() {
    let mut ops = vec![req(0, 10), req(0, 20), req(5, 15)];
    let mut sched = IoScheduler::Fifo(FIFO::new());
    let (total_time, total_movement, _events) = run_simulation(&mut ops, &mut sched);
    assert_eq!(starts(&ops), vec![0, 10, 20]);
    assert_eq!(finishes(&ops), vec![10, 20, 25]);
    assert_eq!(total_time, 25);
    assert_eq!(total_movement, 25);
}

#[test]
fn sstf_prefers_nearest_track() {
    let mut ops = vec![req(0, 10), req(1, 20), req(2, 5)];
    let mut sched = IoScheduler::Sstf(SSTF::new());
    let (_t, _m, _e) = run_simulation(&mut ops, &mut sched);
    assert_eq!(starts(&ops), vec![0, 15, 10]);
    assert_eq!(finishes(&ops), vec![10, 30, 15]);
}

#[test]
fn clook_climbs_then_wraps_to_lowest_track() {
    // all three arrive on the same tick and are queued in file order
    let mut ops = vec![req(0, 100), req(0, 50), req(0, 150)];
    let mut sched = IoScheduler::Clook(CLOOK::new());
    let (_t, _m, _e) = run_simulation(&mut ops, &mut sched);
    // climbing from 0: 50, 100, 150
    assert_eq!(starts(&ops), vec![50, 0, 100]);
    assert_eq!(finishes(&ops), vec![100, 50, 150]);
}

#[test]
fn clook_wraps_when_nothing_is_above_the_head() {
    let ops = vec![req(0, 10), req(0, 40), req(0, 90)];
    let mut p = CLOOK::new();
    p.add(0);
    p.add(1);
    p.add(2);
    // from track 50: only 90 lies above; then wrap to the lowest track
    assert_eq!(p.next(50, &ops), Some(2));
    assert_eq!(p.next(50, &ops), Some(0));
    assert_eq!(p.next(50, &ops), Some(1));
}

#[test]
fn look_reverses_only_when_nothing_lies_ahead() {
    let mut ops = vec![req(0, 100), req(0, 50), req(0, 150)];
    let mut sched = IoScheduler::Look(LOOK::new());
    let (_t, _m, _e) = run_simulation(&mut ops, &mut sched);
    // sweeping up from 0: 50, 100, 150
    assert_eq!(finishes(&ops), vec![100, 50, 150]);
}

#[test]
fn flook_keeps_arrivals_in_the_add_queue() {
    let ops = vec![req(0, 10), req(0, 5)];
    let mut p = FLOOK::new();
    p.add(0);
    p.add(1);
    // both sit in the add queue; the first next swaps the queues
    assert_eq!(p.queue.len(), 0);
    assert_eq!(p.add_queue.len(), 2);
    let got = p.next(0, &ops);
    assert_eq!(got, Some(1));
    assert_eq!(p.add_queue.len(), 0);
}

#[test]
fn fifo_policy_empty_queue_yields_none() {
    let mut p = FIFO::new();
    assert_eq!(p.next(0), None);
}

#[test]
fn sstf_breaks_distance_ties_by_insertion_order() {
    let ops = vec![req(0, 12), req(0, 8)];
    let mut p = SSTF::new();
    p.add(0);
    p.add(1);
    // both are 2 tracks away from 10; the earlier inserted wins
    assert_eq!(p.next(10, &ops), Some(0));
}

#[test]
fn stats_sums_and_max_wait() {
    let mut ops = vec![req(0, 10), req(0, 20), req(5, 15)];
    let mut sched = IoScheduler::Fifo(FIFO::new());
    let (total_time, total_movement, _e) = run_simulation(&mut ops, &mut sched);
    let s = compute_stats(&ops, total_time, total_movement);
    assert_eq!(s.total_time, 25);
    assert_eq!(s.total_movement, 25);
    assert_eq!(s.num_requests, 3);
    // turnarounds 10, 20, 20; waits 0, 10, 15
    assert_eq!(s.turnaround_sum, 50);
    assert_eq!(s.wait_sum, 25);
    assert_eq!(s.max_wait, 15);
}

#[test]
fn same_input_same_policy_is_deterministic() {
    let input = vec![req(0, 30), req(2, 7), req(4, 77), req(4, 12)];
    let mut ops1 = input.clone();
    let mut ops2 = input.clone();
    let mut s1 = IoScheduler::Flook(FLOOK::new());
    let mut s2 = IoScheduler::Flook(FLOOK::new());
    let r1 = run_simulation(&mut ops1, &mut s1);
    let r2 = run_simulation(&mut ops2, &mut s2);
    assert_eq!((r1.0, r1.1), (r2.0, r2.1));
    assert_eq!(r1.2, r2.2);
    assert_eq!(ops1, ops2);
}

#[test]
fn zero_seek_request_finishes_at_its_start_time() {
    let mut ops = vec![req(0, 0), req(3, 4)];
    let mut sched = IoScheduler::Fifo(FIFO::new());
    let (total_time, total_movement, _e) = run_simulation(&mut ops, &mut sched);
    assert_eq!(ops[0].start_time, Some(0));
    assert_eq!(ops[0].completed_time, Some(0));
    assert_eq!(ops[1].start_time, Some(3));
    assert_eq!(ops[1].completed_time, Some(7));
    assert_eq!(total_time, 7);
    assert_eq!(total_movement, 4);
}
