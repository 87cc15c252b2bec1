use ossim::sched::{Process, RandGenerator, Scheduler, State};

#[test]
fn new_process_starts_created_with_all_work_remaining() {
    let gen = RandGenerator::new(String::from("rfile"), vec![7]);
    let p = Process::new(3, 10, 100, 5, 2, &gen, 4);
    assert_eq!(p.id, 3);
    assert_eq!(p.at, 10);
    assert_eq!(p.tc, 100);
    assert_eq!(p.cb, 5);
    assert_eq!(p.io, 2);
    assert_eq!(p.state, State::CREATED);
    assert_eq!(p.remaining, 100);
    assert_eq!(p.current_burst, 0);
    assert!(!p.prempted);
}

#[test]
fn random_stream_hands_out_numbers_from_the_back() {
    let mut gen = RandGenerator::new(String::from("rfile"), vec![3, 5, 8]);
    assert_eq!(gen.get_rand(), 8);
    assert_eq!(gen.get_rand(), 5);
    assert_eq!(gen.get_rand(), 3);
}

#[test]
fn random_stream_wraps_when_exhausted() {
    let mut gen = RandGenerator::new(String::from("rfile"), vec![3, 5]);
    assert_eq!(gen.get_rand(), 5);
    assert_eq!(gen.get_rand(), 3);
    // drained: the stream replays its contents
    assert_eq!(gen.get_rand(), 5);
    assert_eq!(gen.get_rand(), 3);
    assert_eq!(gen.get_rand(), 5);
}

#[test]
fn scheduler_rotates_round_robin() {
    let mut s = Scheduler::new();
    s.add_process(String::from("a"));
    s.add_process(String::from("b"));
    assert_eq!(s.get_next_process(), Some(&String::from("a")));
    assert_eq!(s.get_next_process(), Some(&String::from("b")));
    assert_eq!(s.get_next_process(), Some(&String::from("a")));
}

#[test]
fn empty_scheduler_has_no_next_process() {
    let mut s = Scheduler::new();
    assert_eq!(s.get_next_process(), None);
}
