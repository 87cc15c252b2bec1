//! The disk-head simulation: a time-stepped loop that feeds arrivals to the
//! policy, moves the head one track per tick, and stamps each request's
//! start and completion times.

use vstd::prelude::*;
use crate::iosched::{dist, io_operation, q_wf, IoScheduler};

verus! {

/// One line of the per-event trace.
#[derive(Clone, Copy, PartialEq, Eq, Debug)]
pub enum IoEvent {
    Add { time: usize, id: usize },
    Issue { time: usize, id: usize },
    Finish { time: usize, id: usize },
}

/// The largest target track (zero when there are no requests).
pub open spec fn max_track(ops: Seq<io_operation>) -> int
    decreases ops.len(),
{
    if ops.len() == 0 {
        0
    } else {
        let m = max_track(ops.drop_last());
        if ops.last().track as int > m {
            ops.last().track as int
        } else {
            m
        }
    }
}

proof fn lemma_max_track(ops: Seq<io_operation>)
    ensures
        max_track(ops) >= 0,
        forall|i: int| 0 <= i < ops.len() ==> (#[trigger] ops[i]).track <= max_track(ops),
    decreases ops.len(),
{
    if ops.len() > 0 {
        lemma_max_track(ops.drop_last());
        assert forall|i: int| 0 <= i < ops.len()
            implies (#[trigger] ops[i]).track <= max_track(ops) by {
            if i < ops.len() - 1 {
                assert(ops.drop_last()[i] == ops[i]);
            }
        }
    }
}

/// Both stamps are set.
pub open spec fn settled(o: io_operation) -> bool {
    o.start_time is Some && o.completed_time is Some
}

/// A settled request's seek length; an unsettled one seek_lenutes nothing.
pub open spec fn seek_len(o: io_operation) -> int {
    if settled(o) {
        o.completed_time.unwrap() - o.start_time.unwrap()
    } else {
        0
    }
}

/// The total seek length of the settled requests.
pub open spec fn movement_sum(ops: Seq<io_operation>) -> int
    decreases ops.len(),
{
    if ops.len() == 0 {
        0
    } else {
        movement_sum(ops.drop_last()) + seek_len(ops.last())
    }
}

/// How many requests are settled.
pub open spec fn count_settled(ops: Seq<io_operation>) -> int
    decreases ops.len(),
{
    if ops.len() == 0 {
        0
    } else {
        count_settled(ops.drop_last()) + if settled(ops.last()) { 1int } else { 0 }
    }
}

proof fn lemma_sum_update(ops: Seq<io_operation>, i: int, x: io_operation)
    requires
        0 <= i < ops.len(),
    ensures
        movement_sum(ops.update(i, x)) == movement_sum(ops) - seek_len(ops[i]) + seek_len(x),
        count_settled(ops.update(i, x)) == count_settled(ops) - (if settled(ops[i]) { 1int } else { 0 })
            + (if settled(x) { 1int } else { 0 }),
    decreases ops.len(),
{
    if i == ops.len() - 1 {
        assert(ops.update(i, x).drop_last() =~= ops.drop_last());
    } else {
        assert(ops.update(i, x).drop_last() =~= ops.drop_last().update(i, x));
        lemma_sum_update(ops.drop_last(), i, x);
    }
}

proof fn lemma_sum_bounds(ops: Seq<io_operation>, t: int)
    requires
        t >= 0,
        forall|i: int| 0 <= i < ops.len() && settled(#[trigger] ops[i]) ==> seek_len(ops[i]) <= t,
        forall|i: int| 0 <= i < ops.len() ==> seek_len(#[trigger] ops[i]) >= 0,
    ensures
        0 <= count_settled(ops) <= ops.len(),
        0 <= movement_sum(ops) <= count_settled(ops) * t,
    decreases ops.len(),
{
    if ops.len() > 0 {
        let dl = ops.drop_last();
        assert forall|i: int| 0 <= i < dl.len() && settled(#[trigger] dl[i])
            implies seek_len(dl[i]) <= t by {
            assert(dl[i] == ops[i]);
        }
        assert forall|i: int| 0 <= i < dl.len() implies seek_len(#[trigger] dl[i]) >= 0 by {
            assert(dl[i] == ops[i]);
        }
        lemma_sum_bounds(dl, t);
        assert(seek_len(ops.last()) <= (if settled(ops.last()) { t } else { 0 }));
        assert((count_settled(dl) + if settled(ops.last()) { 1int } else { 0 }) * t
            == count_settled(dl) * t + (if settled(ops.last()) { 1int } else { 0 }) * t)
            by (nonlinear_arith);
    }
}

proof fn lemma_sum_all_none(ops: Seq<io_operation>)
    requires
        forall|i: int| 0 <= i < ops.len() ==> !((#[trigger] ops[i]).start_time is Some),
    ensures
        movement_sum(ops) == 0,
        count_settled(ops) == 0,
    decreases ops.len(),
{
    if ops.len() > 0 {
        assert forall|i: int| 0 <= i < ops.drop_last().len()
            implies !((#[trigger] ops.drop_last()[i]).start_time is Some) by {
            assert(ops.drop_last()[i] == ops[i]);
        }
        lemma_sum_all_none(ops.drop_last());
    }
}

/// The last arrival time (zero when there are no requests).
pub open spec fn last_arrival(ops: Seq<io_operation>) -> int {
    if ops.len() > 0 {
        ops[ops.len() - 1].time as int
    } else {
        0
    }
}

/// Arrival times never decrease along the input.
pub open spec fn arrival_sorted(ops: Seq<io_operation>) -> bool {
    forall|i: int, j: int|
        0 <= i <= j < ops.len() ==> (#[trigger] ops[i]).time <= (#[trigger] ops[j]).time
}

/// The standing state of the simulation loop, tying the request stamps, the
/// policy's queue, the active request, and the bookkeeping counters together.
pub open spec fn sim_inv(
    ops0: Seq<io_operation>,
    ops: Seq<io_operation>,
    pending: Seq<usize>,
    active: Option<usize>,
    cursor: int,
    now: int,
    head: int,
    movement: int,
) -> bool {
    let n = ops0.len() as int;
    let t = max_track(ops0);
    &&& ops.len() == n
    &&& forall|i: int|
        0 <= i < n ==> (#[trigger] ops[i]).time == ops0[i].time && ops[i].track == ops0[i].track
    &&& 0 <= cursor <= n
    &&& forall|i: int|
        cursor <= i < n ==> (#[trigger] ops[i]).start_time is None
            && ops[i].completed_time is None
    &&& forall|i: int|
        0 <= i < cursor && (#[trigger] ops[i]).start_time is None ==> pending.contains(i as usize)
    &&& forall|k: int|
        0 <= k < pending.len() ==> (#[trigger] pending[k]) < cursor
            && ops[pending[k] as int].start_time is None
            && ops[pending[k] as int].completed_time is None
    &&& forall|i: int|
        0 <= i < n && (#[trigger] ops[i]).completed_time is Some ==> ops[i].start_time is Some
    &&& forall|i: int|
        0 <= i < n && (#[trigger] ops[i]).start_time is Some && ops[i].completed_time is None
            ==> active == Some(i as usize)
    &&& (active matches Some(a) ==> a < n && ops[a as int].start_time is Some
        && ops[a as int].completed_time is None)
    &&& forall|i: int|
        0 <= i < n && (#[trigger] ops[i]).start_time is Some ==> ops[i].time
            <= ops[i].start_time.unwrap() <= now
    &&& forall|i: int|
        0 <= i < n && (#[trigger] ops[i]).completed_time is Some
            ==> ops[i].start_time.unwrap() <= ops[i].completed_time.unwrap() <= now
    &&& forall|i: int| 0 <= i < cursor ==> (#[trigger] ops[i]).time <= now
    &&& (cursor < n ==> ops0[cursor].time >= now)
    &&& movement == movement_sum(ops) + (if active is Some {
        now - ops[active.unwrap() as int].start_time.unwrap()
    } else {
        0
    })
    &&& (active matches Some(a) ==> now - ops[a as int].start_time.unwrap()
        + dist(head, ops[a as int].track as int) <= t)
    &&& 0 <= head <= t
    &&& forall|i: int| 0 <= i < n && settled(#[trigger] ops[i]) ==> seek_len(ops[i]) <= t
    &&& 0 <= now
    &&& now <= last_arrival(ops0) + movement
    &&& 0 <= movement
}

/// With one request unsettled, the settled count stays below the length.
proof fn lemma_count_lt(ops: Seq<io_operation>, i: int)
    requires
        0 <= i < ops.len(),
        !settled(ops[i]),
    ensures
        count_settled(ops) < ops.len(),
    decreases ops.len(),
{
    if i == ops.len() - 1 {
        lemma_sum_bounds_weak(ops.drop_last());
    } else {
        assert(ops.drop_last()[i] == ops[i]);
        lemma_count_lt(ops.drop_last(), i);
    }
}

proof fn lemma_sum_bounds_weak(ops: Seq<io_operation>)
    ensures
        0 <= count_settled(ops) <= ops.len(),
    decreases ops.len(),
{
    if ops.len() > 0 {
        lemma_sum_bounds_weak(ops.drop_last());
    }
}

/// Run the whole simulation: every request is started and finished, the
/// stamps are ordered (`arrival <= start <= finish`), and the returned
/// movement — counted one tick per head step — equals the total of the
/// per-request seek times.
#[verifier::loop_isolation(false)]
#[verifier::rlimit(100)]
pub fn run_simulation(ops: &mut Vec<io_operation>, sched: &mut IoScheduler) -> (r: (usize, usize, Vec<IoEvent>))
    requires
        arrival_sorted(old(ops)@),
        forall|i: int|
            0 <= i < old(ops)@.len() ==> (#[trigger] old(ops)@[i]).start_time is None
                && old(ops)@[i].completed_time is None,
        old(sched).pending().len() == 0,
        old(sched).dirs_ok(),
        last_arrival(old(ops)@) + old(ops)@.len() * max_track(old(ops)@) + 1 <= usize::MAX as int,
    ensures
        final(ops)@.len() == old(ops)@.len(),
        forall|i: int|
            0 <= i < old(ops)@.len() ==> {
                let o = #[trigger] final(ops)@[i];
                &&& o.time == old(ops)@[i].time
                &&& o.track == old(ops)@[i].track
                &&& o.start_time is Some
                &&& o.completed_time is Some
                &&& o.time <= o.start_time.unwrap()
                &&& o.start_time.unwrap() <= o.completed_time.unwrap()
                &&& o.completed_time.unwrap() <= r.0
            },
        r.1 == movement_sum(final(ops)@),
{
    let ghost ops0 = old(ops)@;
    let n = ops.len();
    let mut now: usize = 0;
    let mut head: usize = 0;
    let mut cursor: usize = 0;
    let mut movement: usize = 0;
    let mut active: Option<usize> = None;
    let mut events: Vec<IoEvent> = Vec::new();
    proof {
        lemma_max_track(ops0);
        lemma_sum_all_none(ops0);
    }
    let mut done = false;
    while !done
        invariant
            sim_inv(ops0, ops@, sched.pending(), active, cursor as int, now as int, head as int, movement as int),
            sched.dirs_ok(),
            sched.pending().no_duplicates(),
            active is None ==> sched.pending().len() == 0,
            done ==> active is None && cursor == n && sched.pending().len() == 0,
        decreases
            (if done { 0int } else { 1int }),
            ops0.len() - count_settled(ops@),
            ops0.len() - cursor,
            (if active is Some { dist(head as int, ops@[active.unwrap() as int].track as int) } else { 0int }),
            (if cursor < n { ops0[cursor as int].time - now } else { 0int }),
    {
        let ghost c0 = count_settled(ops@);
        let ghost cur0 = cursor;
        let ghost act0 = active;
        proof {
            lemma_sum_bounds_weak(ops@);
        }
        // arrivals: hand every request arriving now to the policy
        while cursor < n && ops[cursor].time == now
            invariant
                sim_inv(ops0, ops@, sched.pending(), active, cursor as int, now as int, head as int, movement as int),
                sched.dirs_ok(),
                sched.pending().no_duplicates(),
                cur0 <= cursor,
                (act0 is None && cursor == cur0) ==> sched.pending().len() == 0,
            decreases n - cursor,
        {
            let ghost opd = sched.pending();
            sched.add(cursor);
            events.push(IoEvent::Add { time: now, id: cursor });
            proof {
                assert forall|i: int|
                    0 <= i < cursor + 1 && (#[trigger] ops@[i]).start_time is None
                    implies sched.pending().contains(i as usize) by {
                    if i < cursor {
                        assert(opd.contains(i as usize));
                        let k = choose|k: int| 0 <= k < opd.len() && opd[k] == i as usize;
                        assert(sched.pending()[k] == i as usize);
                    } else {
                        assert(sched.pending()[opd.len() as int] == cursor);
                    }
                }
                assert forall|k1: int, k2: int|
                    0 <= k1 < sched.pending().len() && 0 <= k2 < sched.pending().len() && k1 != k2
                    implies sched.pending()[k1] != sched.pending()[k2] by {
                    if k1 < opd.len() && k2 < opd.len() {
                    } else if k1 < opd.len() {
                        assert(sched.pending()[k2] == cursor);
                        assert(opd[k1] < cursor);
                    } else if k2 < opd.len() {
                        assert(sched.pending()[k1] == cursor);
                        assert(opd[k2] < cursor);
                    }
                }
            }
            proof {
                if cursor + 1 < n {
                    assert(ops0[cursor as int + 1].time >= ops0[cursor as int].time);
                }
            }
            cursor = cursor + 1;
        }
        // completion: the active request retires when the head reaches it
        if active.is_some() {
            let a = active.unwrap();
            if head == ops[a].track {
                let ghost before = ops@;
                let o = &mut ops[a];
                o.completed_time = Some(now);
                events.push(IoEvent::Finish { time: now, id: a });
                active = None;
                proof {
                    lemma_sum_update(before, a as int, ops@[a as int]);
                    assert(dist(head as int, ops@[a as int].track as int) == 0);
                    assert(seek_len(ops@[a as int]) <= max_track(ops0));
                    assert(movement == movement_sum(ops@));
                    assert forall|i: int|
                        0 <= i < n && (#[trigger] ops@[i]).start_time is Some
                            && ops@[i].completed_time is None implies false by {
                        if i != a as int {
                            assert(before[i] == ops@[i]);
                        }
                    }
                    assert forall|k: int| 0 <= k < sched.pending().len() implies {
                        &&& (#[trigger] sched.pending()[k]) < cursor
                        &&& ops@[sched.pending()[k] as int].start_time is None
                        &&& ops@[sched.pending()[k] as int].completed_time is None
                    } by {
                        assert(before[sched.pending()[k] as int].start_time is None);
                        assert(sched.pending()[k] != a);
                    }
                }
            }
        }
        // start: pull requests until one needs a seek or none is pending
        let mut stalled = false;
        while active.is_none() && !stalled
            invariant
                sim_inv(ops0, ops@, sched.pending(), active, cursor as int, now as int, head as int, movement as int),
                sched.dirs_ok(),
                sched.pending().no_duplicates(),
                active matches Some(x) ==> head != ops@[x as int].track,
                stalled ==> active is None && sched.pending().len() == 0,
                c0 <= count_settled(ops@),
                (act0 is None && cursor == cur0) ==> (active is None
                    && sched.pending().len() == 0 && count_settled(ops@) == c0),
                (act0 is Some && count_settled(ops@) == c0) ==> active == act0,
            decreases sched.pending().len(), (if stalled { 0int } else { 1int }),
        {
            let ghost pend0 = sched.pending();
            proof {
                assert(q_wf(pend0, ops@.len() as int));
            }
            let got = sched.next(head, ops);
            match got {
                Some(x) => {
                    let ghost j = choose|j: int|
                        crate::iosched::removed_at(pend0, sched.pending(), j, x);
                    proof {
                        assert(crate::iosched::removed_at(pend0, sched.pending(), j, x));
                        assert(pend0[j] == x);
                        assert(x < cursor && ops@[x as int].start_time is None);
                        assert forall|k1: int, k2: int|
                            0 <= k1 < sched.pending().len() && 0 <= k2 < sched.pending().len()
                                && k1 != k2
                            implies sched.pending()[k1] != sched.pending()[k2] by {
                            let m1: int = if k1 < j { k1 } else { k1 + 1 };
                            let m2: int = if k2 < j { k2 } else { k2 + 1 };
                            assert(sched.pending()[k1] == pend0[m1]);
                            assert(sched.pending()[k2] == pend0[m2]);
                        }
                        assert forall|k: int| 0 <= k < sched.pending().len()
                            implies (#[trigger] sched.pending()[k]) != x by {
                            let m: int = if k < j { k } else { k + 1 };
                            assert(sched.pending()[k] == pend0[m]);
                        }
                    }
                    let ghost before = ops@;
                    let o = &mut ops[x];
                    o.start_time = Some(now);
                    events.push(IoEvent::Issue { time: now, id: x });
                    proof {
                        lemma_sum_update(before, x as int, ops@[x as int]);
                        assert forall|i: int|
                            0 <= i < cursor && (#[trigger] ops@[i]).start_time is None
                            implies sched.pending().contains(i as usize) by {
                            assert(before[i].start_time is None);
                            assert(pend0.contains(i as usize));
                            let k = choose|k: int| 0 <= k < pend0.len() && pend0[k] == i as usize;
                            assert(i as usize != x);
                            assert(k != j);
                            let m: int = if k < j { k } else { k - 1 };
                            assert(sched.pending()[m] == pend0[k]);
                        }
                        assert forall|k: int| 0 <= k < sched.pending().len() implies {
                            &&& (#[trigger] sched.pending()[k]) < cursor
                            &&& ops@[sched.pending()[k] as int].start_time is None
                            &&& ops@[sched.pending()[k] as int].completed_time is None
                        } by {
                            let m: int = if k < j { k } else { k + 1 };
                            assert(sched.pending()[k] == pend0[m]);
                            assert(sched.pending()[k] != x);
                        }
                    }
                    if head == ops[x].track {
                        let ghost before2 = ops@;
                        let o2 = &mut ops[x];
                        o2.completed_time = Some(now);
                        events.push(IoEvent::Finish { time: now, id: x });
                        proof {
                            lemma_sum_update(before2, x as int, ops@[x as int]);
                        }
                    } else {
                        active = Some(x);
                    }
                },
                None => {
                    stalled = true;
                },
            }
        }
        if active.is_none() && cursor >= n {
            done = true;
        } else {
        // seek: one track toward the active request's target
        if active.is_some() {
            let a = active.unwrap();
            let tr = ops[a].track;
            proof {
                assert(head != tr);
            }
            if head < tr {
                head = head + 1;
            } else {
                head = head - 1;
            }
            proof {
                lemma_sum_bounds(ops@, max_track(ops0));
                lemma_count_lt(ops@, a as int);
                let t = max_track(ops0);
                let cnt = count_settled(ops@);
                let n0 = ops0.len() as int;
                assert(cnt * t + t <= n0 * t) by (nonlinear_arith)
                    requires
                        cnt <= n0 - 1,
                        t >= 0,
                ;
                assert(movement + 1 <= last_arrival(ops0) + n0 * t + 1);
            }
            movement = movement + 1;
        }
        proof {
            let t = max_track(ops0);
            let n0 = ops0.len() as int;
            lemma_sum_bounds(ops@, t);
            if active.is_some() {
                let a = active.unwrap();
                lemma_count_lt(ops@, a as int);
                let cnt = count_settled(ops@);
                assert(cnt * t + t <= n0 * t) by (nonlinear_arith)
                    requires
                        cnt <= n0 - 1,
                        t >= 0,
                ;
            } else {
                let cnt = count_settled(ops@);
                assert(cnt * t <= n0 * t) by (nonlinear_arith)
                    requires
                        cnt <= n0,
                        t >= 0,
                ;
                if cursor < n {
                    assert(ops0[cursor as int].time <= ops0[n - 1].time);
                }
            }
            assert(now + 1 <= last_arrival(ops0) + movement + 1);
        }
        now = now + 1;
        }
    }
    proof {
        assert forall|i: int| 0 <= i < n implies (#[trigger] ops@[i]).start_time is Some by {
            if ops@[i].start_time is None {
                assert(sched.pending().contains(i as usize));
            }
        }
        assert forall|i: int| 0 <= i < n implies (#[trigger] ops@[i]).completed_time is Some by {
            if ops@[i].completed_time is None {
                assert(ops@[i].start_time is Some);
            }
        }
    }
    (now, movement, events)
}

/// The aggregate figures of one simulation run.  The two averages and the
/// utilisation the report prints are quotients of these integer sums.
pub struct Stats {
    pub total_time: usize,
    pub total_movement: usize,
    pub turnaround_sum: u128,
    pub wait_sum: u128,
    pub max_wait: usize,
    pub num_requests: usize,
}

/// The sum of the turnaround times (completion minus arrival).
pub open spec fn turnaround_sum_spec(ops: Seq<io_operation>) -> int
    decreases ops.len(),
{
    if ops.len() == 0 {
        0
    } else {
        turnaround_sum_spec(ops.drop_last()) + (ops.last().completed_time.unwrap()
            - ops.last().time)
    }
}

/// The sum of the wait times (start minus arrival).
pub open spec fn wait_sum_spec(ops: Seq<io_operation>) -> int
    decreases ops.len(),
{
    if ops.len() == 0 {
        0
    } else {
        wait_sum_spec(ops.drop_last()) + (ops.last().start_time.unwrap() - ops.last().time)
    }
}

/// The largest wait time (zero when there are no requests).
pub open spec fn max_wait_spec(ops: Seq<io_operation>) -> int
    decreases ops.len(),
{
    if ops.len() == 0 {
        0
    } else {
        let m = max_wait_spec(ops.drop_last());
        let w = ops.last().start_time.unwrap() - ops.last().time;
        if w > m {
            w
        } else {
            m
        }
    }
}

proof fn lemma_stats_take_step(ops: Seq<io_operation>, i: int)
    requires
        0 <= i < ops.len(),
    ensures
        turnaround_sum_spec(ops.take(i + 1)) == turnaround_sum_spec(ops.take(i))
            + (ops[i].completed_time.unwrap() - ops[i].time),
        wait_sum_spec(ops.take(i + 1)) == wait_sum_spec(ops.take(i))
            + (ops[i].start_time.unwrap() - ops[i].time),
        max_wait_spec(ops.take(i + 1)) == (if ops[i].start_time.unwrap() - ops[i].time
            > max_wait_spec(ops.take(i)) {
            ops[i].start_time.unwrap() - ops[i].time
        } else {
            max_wait_spec(ops.take(i))
        }),
{
    assert(ops.take(i + 1).drop_last() =~= ops.take(i));
    assert(ops.take(i + 1).last() == ops[i]);
}

/// Fold a finished run into its report figures.
pub fn compute_stats(ops: &Vec<io_operation>, total_time: usize, total_movement: usize) -> (s: Stats)
    requires
        forall|i: int| 0 <= i < ops@.len() ==> {
            let o = #[trigger] ops@[i];
            &&& o.start_time is Some
            &&& o.completed_time is Some
            &&& o.time <= o.start_time.unwrap()
            &&& o.start_time.unwrap() <= o.completed_time.unwrap()
        },
    ensures
        s.total_time == total_time,
        s.total_movement == total_movement,
        s.num_requests == ops@.len(),
        s.turnaround_sum == turnaround_sum_spec(ops@),
        s.wait_sum == wait_sum_spec(ops@),
        s.max_wait == max_wait_spec(ops@),
{
    let n = ops.len();
    let mut turnaround_sum: u128 = 0;
    let mut wait_sum: u128 = 0;
    let mut max_wait: usize = 0;
    let mut i: usize = 0;
    while i < n
        invariant
            n == ops@.len(),
            0 <= i <= n,
            forall|k: int| 0 <= k < n ==> {
                let o = #[trigger] ops@[k];
                &&& o.start_time is Some
                &&& o.completed_time is Some
                &&& o.time <= o.start_time.unwrap()
                &&& o.start_time.unwrap() <= o.completed_time.unwrap()
            },
            turnaround_sum == turnaround_sum_spec(ops@.take(i as int)),
            wait_sum == wait_sum_spec(ops@.take(i as int)),
            max_wait == max_wait_spec(ops@.take(i as int)),
            turnaround_sum <= i * 0x1_0000_0000_0000_0000u128,
            wait_sum <= i * 0x1_0000_0000_0000_0000u128,
        decreases n - i,
    {
        let o = &ops[i];
        let st = match o.start_time {
            Some(v) => v,
            None => 0,
        };
        let ct = match o.completed_time {
            Some(v) => v,
            None => 0,
        };
        turnaround_sum = turnaround_sum + ((ct - o.time) as u128);
        wait_sum = wait_sum + ((st - o.time) as u128);
        let w = st - o.time;
        if w > max_wait {
            max_wait = w;
        }
        proof {
            lemma_stats_take_step(ops@, i as int);
        }
        i = i + 1;
    }
    proof {
        assert(ops@.take(n as int) =~= ops@);
    }
    Stats {
        total_time,
        total_movement,
        turnaround_sum,
        wait_sum,
        max_wait,
        num_requests: n,
    }
}

} // verus!
