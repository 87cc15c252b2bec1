//! Disk I/O request scheduling: the request record and the five
//! request-selection policies.
//!
//! A policy owns a queue of request indices.  `add` hands it a newly arrived
//! request; `next` chooses which pending request the head serves next.
//! Policies never move the head.

use vstd::prelude::*;

verus! {

/// One I/O request: its arrival time and target track are input; the start
/// and completion stamps are set once by the simulation.
#[allow(non_camel_case_types)]
#[derive(Clone, Copy, PartialEq, Eq, Debug)]
pub struct io_operation {
    pub time: usize,
    pub track: usize,
    pub start_time: Option<usize>,
    pub completed_time: Option<usize>,
}

/// Seek distance between a head position and a track.
pub open spec fn dist(head: int, track: int) -> int {
    if track >= head {
        track - head
    } else {
        head - track
    }
}

/// Every queued index names a request.
pub open spec fn q_wf(q: Seq<usize>, n: int) -> bool {
    forall|i: int| 0 <= i < q.len() ==> (#[trigger] q[i]) < n
}

/// Position `j` holds the first queued request whose track is nearest the
/// head.
pub open spec fn first_min_dist(q: Seq<usize>, ops: Seq<io_operation>, head: int, j: int) -> bool {
    &&& 0 <= j < q.len()
    &&& forall|k: int|
        0 <= k < q.len() ==> dist(head, ops[q[k] as int].track as int)
            >= dist(head, ops[q[j] as int].track as int)
    &&& forall|k: int|
        0 <= k < j ==> dist(head, ops[q[k] as int].track as int)
            > dist(head, ops[q[j] as int].track as int)
}

/// The track at queue position `k` lies on the side of the head that
/// direction `d` sweeps.
pub open spec fn in_dir(d: int, head: int, track: int) -> bool {
    if d == 1 {
        track >= head
    } else {
        track <= head
    }
}

/// Position `j` holds the first nearest request among those in direction `d`.
pub open spec fn first_min_dist_dir(
    q: Seq<usize>,
    ops: Seq<io_operation>,
    head: int,
    d: int,
    j: int,
) -> bool {
    &&& 0 <= j < q.len()
    &&& in_dir(d, head, ops[q[j] as int].track as int)
    &&& forall|k: int|
        0 <= k < q.len() && in_dir(d, head, ops[(#[trigger] q[k]) as int].track as int)
            ==> dist(head, ops[q[k] as int].track as int) >= dist(head, ops[q[j] as int].track as int)
    &&& forall|k: int|
        0 <= k < j && in_dir(d, head, ops[(#[trigger] q[k]) as int].track as int)
            ==> dist(head, ops[q[k] as int].track as int) > dist(head, ops[q[j] as int].track as int)
}

/// Position `j` holds the first queued request at or above the head with the
/// smallest climb.
pub open spec fn first_min_above(q: Seq<usize>, ops: Seq<io_operation>, head: int, j: int) -> bool {
    &&& 0 <= j < q.len()
    &&& ops[q[j] as int].track >= head
    &&& forall|k: int|
        0 <= k < q.len() && ops[(#[trigger] q[k]) as int].track >= head
            ==> ops[q[k] as int].track >= ops[q[j] as int].track
    &&& forall|k: int|
        0 <= k < j && ops[(#[trigger] q[k]) as int].track >= head
            ==> ops[q[k] as int].track > ops[q[j] as int].track
}

/// Position `j` holds the first queued request with the lowest track.
pub open spec fn first_min_track(q: Seq<usize>, ops: Seq<io_operation>, j: int) -> bool {
    &&& 0 <= j < q.len()
    &&& forall|k: int|
        0 <= k < q.len() ==> ops[(#[trigger] q[k]) as int].track >= ops[q[j] as int].track
    &&& forall|k: int| 0 <= k < j ==> ops[(#[trigger] q[k]) as int].track > ops[q[j] as int].track
}

/// Serve requests strictly in arrival order.
pub struct FIFO {
    pub queue: Vec<usize>,
}

impl FIFO {
    pub fn new() -> (p: FIFO)
        ensures
            p.queue@ == Seq::<usize>::empty(),
    {
        FIFO { queue: Vec::new() }
    }

    pub fn add(&mut self, io: usize)
        ensures
            final(self).queue@ == old(self).queue@.push(io),
    {
        self.queue.push(io);
    }

    /// The oldest queued request, if any.
    pub fn next(&mut self, _track_head: usize) -> (r: Option<usize>)
        ensures
            old(self).queue@.len() == 0 ==> r is None && final(self).queue@ == old(self).queue@,
            old(self).queue@.len() > 0 ==> r == Some(old(self).queue@[0])
                && final(self).queue@ == old(self).queue@.remove(0),
    {
        if self.queue.len() == 0 {
            return None;
        }
        Some(self.queue.remove(0))
    }
}

/// Find the first queue position minimizing seek distance from `head`.
fn scan_min_dist(q: &Vec<usize>, ops: &Vec<io_operation>, head: usize) -> (j: usize)
    requires
        q@.len() > 0,
        q_wf(q@, ops@.len() as int),
    ensures
        first_min_dist(q@, ops@, head as int, j as int),
{
    let mut j: usize = 0;
    let mut best: usize = abs_dist(head, ops[q[0]].track);
    let mut k: usize = 1;
    while k < q.len()
        invariant
            q@.len() > 0,
            q_wf(q@, ops@.len() as int),
            0 <= j < k <= q@.len(),
            best == dist(head as int, ops@[q@[j as int] as int].track as int),
            forall|i: int|
                0 <= i < k ==> dist(head as int, ops@[q@[i] as int].track as int) >= best,
            forall|i: int| 0 <= i < j ==> dist(head as int, ops@[q@[i] as int].track as int) > best,
        decreases q@.len() - k,
    {
        let d = abs_dist(head, ops[q[k]].track);
        if d < best {
            best = d;
            j = k;
        }
        k = k + 1;
    }
    j
}

/// `|head - track|` on machine integers.
fn abs_dist(head: usize, track: usize) -> (d: usize)
    ensures
        d == dist(head as int, track as int),
{
    if track >= head {
        track - head
    } else {
        head - track
    }
}

/// Serve the request with the shortest seek first, earliest arrival on ties.
pub struct SSTF {
    pub queue: Vec<usize>,
}

impl SSTF {
    pub fn new() -> (p: SSTF)
        ensures
            p.queue@ == Seq::<usize>::empty(),
    {
        SSTF { queue: Vec::new() }
    }

    pub fn add(&mut self, io: usize)
        ensures
            final(self).queue@ == old(self).queue@.push(io),
    {
        self.queue.push(io);
    }

    /// The queued request nearest the head, the oldest among ties.
    pub fn next(&mut self, track_head: usize, ops: &Vec<io_operation>) -> (r: Option<usize>)
        requires
            q_wf(old(self).queue@, ops@.len() as int),
        ensures
            old(self).queue@.len() == 0 ==> r is None && final(self).queue@ == old(self).queue@,
            old(self).queue@.len() > 0 ==> exists|j: int| {
                &&& #[trigger] first_min_dist(old(self).queue@, ops@, track_head as int, j)
                &&& r == Some(old(self).queue@[j])
                &&& final(self).queue@ == old(self).queue@.remove(j)
            },
    {
        if self.queue.len() == 0 {
            return None;
        }
        let j = scan_min_dist(&self.queue, ops, track_head);
        Some(self.queue.remove(j))
    }
}

/// Find the first queue position in direction `d` minimizing seek distance,
/// if any request lies that way.
fn scan_min_dist_dir(q: &Vec<usize>, ops: &Vec<io_operation>, head: usize, d: i8) -> (r: Option<usize>)
    requires
        q_wf(q@, ops@.len() as int),
        d == 1i8 || d == -1i8,
    ensures
        r is None ==> forall|k: int|
            0 <= k < q@.len() ==> !in_dir(d as int, head as int, ops@[(#[trigger] q@[k]) as int].track as int),
        r matches Some(j) ==> first_min_dist_dir(q@, ops@, head as int, d as int, j as int),
{
    let mut j: Option<usize> = None;
    let mut best: usize = 0;
    let mut k: usize = 0;
    while k < q.len()
        invariant
            q_wf(q@, ops@.len() as int),
            d == 1i8 || d == -1i8,
            0 <= k <= q@.len(),
            j is None ==> forall|i: int|
                0 <= i < k ==> !in_dir(d as int, head as int, ops@[(#[trigger] q@[i]) as int].track as int),
            j matches Some(jj) ==> {
                &&& 0 <= jj < k
                &&& in_dir(d as int, head as int, ops@[q@[jj as int] as int].track as int)
                &&& best == dist(head as int, ops@[q@[jj as int] as int].track as int)
                &&& forall|i: int|
                    0 <= i < k && in_dir(d as int, head as int, ops@[(#[trigger] q@[i]) as int].track as int)
                        ==> dist(head as int, ops@[q@[i] as int].track as int) >= best
                &&& forall|i: int|
                    0 <= i < jj && in_dir(d as int, head as int, ops@[(#[trigger] q@[i]) as int].track as int)
                        ==> dist(head as int, ops@[q@[i] as int].track as int) > best
            },
        decreases q@.len() - k,
    {
        let t = ops[q[k]].track;
        let matches_dir = if d == 1 { t >= head } else { t <= head };
        if matches_dir {
            let dd = abs_dist(head, t);
            match j {
                None => {
                    j = Some(k);
                    best = dd;
                },
                Some(_) => {
                    if dd < best {
                        j = Some(k);
                        best = dd;
                    }
                },
            }
        }
        k = k + 1;
    }
    j
}

/// Sweep in one direction, serving the nearest request ahead of the head;
/// reverse only when nothing lies ahead.
pub struct LOOK {
    pub queue: Vec<usize>,
    pub dir: i8,
}

impl LOOK {
    pub fn new() -> (p: LOOK)
        ensures
            p.queue@ == Seq::<usize>::empty(),
            p.dir == 1i8,
    {
        LOOK { queue: Vec::new(), dir: 1 }
    }

    pub fn add(&mut self, io: usize)
        ensures
            final(self).queue@ == old(self).queue@.push(io),
            final(self).dir == old(self).dir,
    {
        self.queue.push(io);
    }

    /// The nearest request in the sweep direction, reversing once if none.
    pub fn next(&mut self, track_head: usize, ops: &Vec<io_operation>) -> (r: Option<usize>)
        requires
            q_wf(old(self).queue@, ops@.len() as int),
            old(self).dir == 1i8 || old(self).dir == -1i8,
        ensures
            final(self).dir == 1i8 || final(self).dir == -1i8,
            old(self).queue@.len() == 0 ==> r is None && final(self).queue@ == old(self).queue@
                && final(self).dir == old(self).dir,
            old(self).queue@.len() > 0 ==> exists|j: int| {
                &&& #[trigger] first_min_dist_dir(
                    old(self).queue@, ops@, track_head as int, final(self).dir as int, j)
                &&& r == Some(old(self).queue@[j])
                &&& final(self).queue@ == old(self).queue@.remove(j)
                &&& (final(self).dir != old(self).dir ==> forall|k: int|
                    0 <= k < old(self).queue@.len() ==> !in_dir(
                        old(self).dir as int,
                        track_head as int,
                        ops@[(#[trigger] old(self).queue@[k]) as int].track as int,
                    ))
            },
    {
        if self.queue.len() == 0 {
            return None;
        }
        let ghost oq = self.queue@;
        match scan_min_dist_dir(&self.queue, ops, track_head, self.dir) {
            Some(j) => {
                let rr = self.queue.remove(j);
                proof {
                    let jj = j as int;
                    assert(first_min_dist_dir(oq, ops@, track_head as int, self.dir as int, jj));
                    assert(rr == oq[jj] && self.queue@ == oq.remove(jj));
                }
                return Some(rr);
            },
            None => {},
        }
        self.dir = if self.dir == 1 { -1 } else { 1 };
        match scan_min_dist_dir(&self.queue, ops, track_head, self.dir) {
            Some(j) => {
                let rr = self.queue.remove(j);
                proof {
                    let jj = j as int;
                    assert(first_min_dist_dir(oq, ops@, track_head as int, self.dir as int, jj));
                    assert(rr == oq[jj] && self.queue@ == oq.remove(jj));
                }
                Some(rr)
            },
            None => {
                proof {
                    assert(!in_dir(old(self).dir as int, track_head as int,
                        ops@[self.queue@[0] as int].track as int));
                    assert(!in_dir(self.dir as int, track_head as int,
                        ops@[self.queue@[0] as int].track as int));
                    assert(false);
                }
                None
            },
        }
    }
}

/// Find the first queue position at or above the head with the lowest
/// track, if any.
fn scan_min_above(q: &Vec<usize>, ops: &Vec<io_operation>, head: usize) -> (r: Option<usize>)
    requires
        q_wf(q@, ops@.len() as int),
    ensures
        r is None ==> forall|k: int|
            0 <= k < q@.len() ==> ops@[(#[trigger] q@[k]) as int].track < head,
        r matches Some(j) ==> first_min_above(q@, ops@, head as int, j as int),
{
    let mut j: Option<usize> = None;
    let mut k: usize = 0;
    while k < q.len()
        invariant
            q_wf(q@, ops@.len() as int),
            0 <= k <= q@.len(),
            j is None ==> forall|i: int| 0 <= i < k ==> ops@[(#[trigger] q@[i]) as int].track < head,
            j matches Some(jj) ==> {
                &&& 0 <= jj < k
                &&& ops@[q@[jj as int] as int].track >= head
                &&& forall|i: int|
                    0 <= i < k && ops@[(#[trigger] q@[i]) as int].track >= head
                        ==> ops@[q@[i] as int].track >= ops@[q@[jj as int] as int].track
                &&& forall|i: int|
                    0 <= i < jj && ops@[(#[trigger] q@[i]) as int].track >= head
                        ==> ops@[q@[i] as int].track > ops@[q@[jj as int] as int].track
            },
        decreases q@.len() - k,
    {
        let t = ops[q[k]].track;
        if t >= head {
            match j {
                None => {
                    j = Some(k);
                },
                Some(jj) => {
                    if t < ops[q[jj]].track {
                        j = Some(k);
                    }
                },
            }
        }
        k = k + 1;
    }
    j
}

/// Find the first queue position with the lowest track.
fn scan_min_track(q: &Vec<usize>, ops: &Vec<io_operation>) -> (j: usize)
    requires
        q@.len() > 0,
        q_wf(q@, ops@.len() as int),
    ensures
        first_min_track(q@, ops@, j as int),
{
    let mut j: usize = 0;
    let mut k: usize = 1;
    while k < q.len()
        invariant
            q@.len() > 0,
            q_wf(q@, ops@.len() as int),
            0 <= j < k <= q@.len(),
            forall|i: int|
                0 <= i < k ==> ops@[(#[trigger] q@[i]) as int].track >= ops@[q@[j as int] as int].track,
            forall|i: int|
                0 <= i < j ==> ops@[(#[trigger] q@[i]) as int].track > ops@[q@[j as int] as int].track,
        decreases q@.len() - k,
    {
        if ops[q[k]].track < ops[q[j]].track {
            j = k;
        }
        k = k + 1;
    }
    j
}

/// Circular sweep upward: the smallest climb at or above the head, else
/// wrap to the lowest track.
pub struct CLOOK {
    pub queue: Vec<usize>,
}

impl CLOOK {
    pub fn new() -> (p: CLOOK)
        ensures
            p.queue@ == Seq::<usize>::empty(),
    {
        CLOOK { queue: Vec::new() }
    }

    pub fn add(&mut self, io: usize)
        ensures
            final(self).queue@ == old(self).queue@.push(io),
    {
        self.queue.push(io);
    }

    /// The nearest request at or above the head, else the lowest track.
    pub fn next(&mut self, track_head: usize, ops: &Vec<io_operation>) -> (r: Option<usize>)
        requires
            q_wf(old(self).queue@, ops@.len() as int),
        ensures
            old(self).queue@.len() == 0 ==> r is None && final(self).queue@ == old(self).queue@,
            old(self).queue@.len() > 0 && (exists|k: int|
                0 <= k < old(self).queue@.len()
                    && ops@[(#[trigger] old(self).queue@[k]) as int].track >= track_head)
                ==> exists|j: int| {
                &&& #[trigger] first_min_above(old(self).queue@, ops@, track_head as int, j)
                &&& r == Some(old(self).queue@[j])
                &&& final(self).queue@ == old(self).queue@.remove(j)
            },
            old(self).queue@.len() > 0 && (forall|k: int|
                0 <= k < old(self).queue@.len()
                    ==> ops@[(#[trigger] old(self).queue@[k]) as int].track < track_head)
                ==> exists|j: int| {
                &&& #[trigger] first_min_track(old(self).queue@, ops@, j)
                &&& r == Some(old(self).queue@[j])
                &&& final(self).queue@ == old(self).queue@.remove(j)
            },
    {
        if self.queue.len() == 0 {
            return None;
        }
        let ghost oq = self.queue@;
        match scan_min_above(&self.queue, ops, track_head) {
            Some(j) => {
                proof {
                    assert(ops@[oq[j as int] as int].track >= track_head);
                }
                let rr = self.queue.remove(j);
                proof {
                    let jj = j as int;
                    assert(first_min_above(oq, ops@, track_head as int, jj));
                    assert(rr == oq[jj] && self.queue@ == oq.remove(jj));
                }
                Some(rr)
            },
            None => {
                let j = scan_min_track(&self.queue, ops);
                let rr = self.queue.remove(j);
                proof {
                    let jj = j as int;
                    assert(first_min_track(oq, ops@, jj));
                    assert(rr == oq[jj] && self.queue@ == oq.remove(jj));
                    assert(forall|k: int|
                        0 <= k < oq.len() ==> ops@[(#[trigger] oq[k]) as int].track < track_head);
                }
                Some(rr)
            },
        }
    }
}

/// Double-buffered LOOK: arrivals go to an add queue that is swapped in
/// when the active queue drains; the sweep direction persists.
pub struct FLOOK {
    pub queue: Vec<usize>,
    pub add_queue: Vec<usize>,
    pub dir: i8,
}

impl FLOOK {
    pub fn new() -> (p: FLOOK)
        ensures
            p.queue@ == Seq::<usize>::empty(),
            p.add_queue@ == Seq::<usize>::empty(),
            p.dir == 1i8,
    {
        FLOOK { queue: Vec::new(), add_queue: Vec::new(), dir: 1 }
    }

    pub fn add(&mut self, io: usize)
        ensures
            final(self).add_queue@ == old(self).add_queue@.push(io),
            final(self).queue@ == old(self).queue@,
            final(self).dir == old(self).dir,
    {
        self.add_queue.push(io);
    }

    /// LOOK over the active queue, swapping in the add queue when empty.
    pub fn next(&mut self, track_head: usize, ops: &Vec<io_operation>) -> (r: Option<usize>)
        requires
            q_wf(old(self).queue@, ops@.len() as int),
            q_wf(old(self).add_queue@, ops@.len() as int),
            old(self).dir == 1i8 || old(self).dir == -1i8,
        ensures
            final(self).dir == 1i8 || final(self).dir == -1i8,
            old(self).queue@.len() == 0 && old(self).add_queue@.len() == 0 ==> r is None
                && final(self).queue@ == old(self).queue@
                && final(self).add_queue@ == old(self).add_queue@
                && final(self).dir == old(self).dir,
            old(self).queue@.len() > 0 ==> exists|j: int| {
                &&& #[trigger] first_min_dist_dir(
                    old(self).queue@, ops@, track_head as int, final(self).dir as int, j)
                &&& r == Some(old(self).queue@[j])
                &&& final(self).queue@ == old(self).queue@.remove(j)
                &&& final(self).add_queue@ == old(self).add_queue@
                &&& (final(self).dir != old(self).dir ==> forall|k: int|
                    0 <= k < old(self).queue@.len() ==> !in_dir(
                        old(self).dir as int,
                        track_head as int,
                        ops@[(#[trigger] old(self).queue@[k]) as int].track as int,
                    ))
            },
            old(self).queue@.len() == 0 && old(self).add_queue@.len() > 0 ==> exists|j: int| {
                &&& #[trigger] first_min_dist_dir(
                    old(self).add_queue@, ops@, track_head as int, final(self).dir as int, j)
                &&& r == Some(old(self).add_queue@[j])
                &&& final(self).queue@ == old(self).add_queue@.remove(j)
                &&& final(self).add_queue@ == Seq::<usize>::empty()
                &&& (final(self).dir != old(self).dir ==> forall|k: int|
                    0 <= k < old(self).add_queue@.len() ==> !in_dir(
                        old(self).dir as int,
                        track_head as int,
                        ops@[(#[trigger] old(self).add_queue@[k]) as int].track as int,
                    ))
            },
    {
        if self.queue.len() == 0 {
            if self.add_queue.len() == 0 {
                return None;
            }
            core::mem::swap(&mut self.queue, &mut self.add_queue);
            proof {
                assert(self.add_queue@ =~= Seq::<usize>::empty());
            }
        }
        let ghost scanq = self.queue@;
        match scan_min_dist_dir(&self.queue, ops, track_head, self.dir) {
            Some(j) => {
                let rr = self.queue.remove(j);
                proof {
                    let jj = j as int;
                    assert(first_min_dist_dir(scanq, ops@, track_head as int, self.dir as int, jj));
                    assert(rr == scanq[jj] && self.queue@ == scanq.remove(jj));
                }
                return Some(rr);
            },
            None => {},
        }
        self.dir = if self.dir == 1 { -1 } else { 1 };
        match scan_min_dist_dir(&self.queue, ops, track_head, self.dir) {
            Some(j) => {
                let rr = self.queue.remove(j);
                proof {
                    let jj = j as int;
                    assert(first_min_dist_dir(scanq, ops@, track_head as int, self.dir as int, jj));
                    assert(rr == scanq[jj] && self.queue@ == scanq.remove(jj));
                }
                Some(rr)
            },
            None => {
                proof {
                    assert(!in_dir(old(self).dir as int, track_head as int,
                        ops@[self.queue@[0] as int].track as int));
                    assert(!in_dir(self.dir as int, track_head as int,
                        ops@[self.queue@[0] as int].track as int));
                    assert(false);
                }
                None
            },
        }
    }
}

/// Queue position `j` held request `x`, and removing it left `n`.
pub open spec fn removed_at(o: Seq<usize>, n: Seq<usize>, j: int, x: usize) -> bool {
    &&& 0 <= j < o.len()
    &&& o[j] == x
    &&& n == o.remove(j)
}

/// Either nothing was pending and nothing changed, or one pending request
/// came off the queue.
pub open spec fn popped(o: Seq<usize>, n: Seq<usize>, r: Option<usize>) -> bool {
    if r is None {
        n == o && o.len() == 0
    } else {
        exists|j: int| #[trigger] removed_at(o, n, j, r.unwrap())
    }
}

/// The family of request-selection policies, dispatched by variant.
pub enum IoScheduler {
    Fifo(FIFO),
    Sstf(SSTF),
    Look(LOOK),
    Clook(CLOOK),
    Flook(FLOOK),
}

impl IoScheduler {
    /// The requests the policy is holding, in its own order.
    pub open spec fn pending(self) -> Seq<usize> {
        match self {
            IoScheduler::Fifo(p) => p.queue@,
            IoScheduler::Sstf(p) => p.queue@,
            IoScheduler::Look(p) => p.queue@,
            IoScheduler::Clook(p) => p.queue@,
            IoScheduler::Flook(p) => p.queue@ + p.add_queue@,
        }
    }

    /// A sweep direction, where the policy has one, is either up or down.
    pub open spec fn dirs_ok(self) -> bool {
        match self {
            IoScheduler::Fifo(_) => true,
            IoScheduler::Sstf(_) => true,
            IoScheduler::Look(p) => p.dir == 1i8 || p.dir == -1i8,
            IoScheduler::Clook(_) => true,
            IoScheduler::Flook(p) => p.dir == 1i8 || p.dir == -1i8,
        }
    }

    /// Hand a newly arrived request to the policy.
    pub fn add(&mut self, io: usize)
        ensures
            final(self).pending() == old(self).pending().push(io),
            final(self).dirs_ok() == old(self).dirs_ok(),
    {
        match self {
            IoScheduler::Fifo(p) => p.add(io),
            IoScheduler::Sstf(p) => p.add(io),
            IoScheduler::Look(p) => p.add(io),
            IoScheduler::Clook(p) => p.add(io),
            IoScheduler::Flook(p) => {
                p.add(io);
                proof {
                    assert(final(self).pending() =~= old(self).pending().push(io));
                }
            },
        }
    }

    /// Choose the next request to serve, removing it from the queue.  Which
    /// one it is, each policy's own contract pins down exactly.
    pub fn next(&mut self, track_head: usize, ops: &Vec<io_operation>) -> (r: Option<usize>)
        requires
            q_wf(old(self).pending(), ops@.len() as int),
            old(self).dirs_ok(),
        ensures
            final(self).dirs_ok(),
            popped(old(self).pending(), final(self).pending(), r),
    {
        match self {
            IoScheduler::Fifo(p) => {
                let ghost oq = p.queue@;
                let r = p.next(track_head);
                proof {
                    if oq.len() > 0 {
                        assert(removed_at(oq, p.queue@, 0, oq[0]));
                        assert(r == Some(oq[0]));
                        assert(r.unwrap() == oq[0]);
                        assert(exists|j: int| removed_at(oq, p.queue@, j, r.unwrap()));
                    } else {
                        assert(p.queue@ == oq && oq.len() == 0);
                        assert(r is None);
                    }
                    assert(popped(oq, p.queue@, r));
                }
                r
            },
            IoScheduler::Sstf(p) => {
                let ghost oq = p.queue@;
                let r = p.next(track_head, ops);
                proof {
                    if oq.len() > 0 {
                        let j = choose|j: int| {
                            &&& #[trigger] first_min_dist(oq, ops@, track_head as int, j)
                            &&& r == Some(oq[j])
                            &&& p.queue@ == oq.remove(j)
                        };
                        assert(removed_at(oq, p.queue@, j, r.unwrap()));
                        assert(exists|jx: int| removed_at(oq, p.queue@, jx, r.unwrap()));
                    }
                    assert(popped(oq, p.queue@, r));
                }
                r
            },
            IoScheduler::Look(p) => {
                let ghost oq = p.queue@;
                let r = p.next(track_head, ops);
                proof {
                    if oq.len() > 0 {
                        let j = choose|j: int| {
                            &&& #[trigger] first_min_dist_dir(oq, ops@, track_head as int, p.dir as int, j)
                            &&& r == Some(oq[j])
                            &&& p.queue@ == oq.remove(j)
                        };
                        assert(removed_at(oq, p.queue@, j, r.unwrap()));
                        assert(exists|jx: int| removed_at(oq, p.queue@, jx, r.unwrap()));
                    }
                    assert(popped(oq, p.queue@, r));
                }
                r
            },
            IoScheduler::Clook(p) => {
                let ghost oq = p.queue@;
                let r = p.next(track_head, ops);
                proof {
                    if oq.len() > 0 {
                        if exists|k: int|
                            0 <= k < oq.len() && ops@[(#[trigger] oq[k]) as int].track >= track_head {
                            let j = choose|j: int| {
                                &&& #[trigger] first_min_above(oq, ops@, track_head as int, j)
                                &&& r == Some(oq[j])
                                &&& p.queue@ == oq.remove(j)
                            };
                            assert(removed_at(oq, p.queue@, j, r.unwrap()));
                            assert(exists|jx: int| removed_at(oq, p.queue@, jx, r.unwrap()));
                        } else {
                            assert forall|k: int| 0 <= k < oq.len()
                                implies ops@[(#[trigger] oq[k]) as int].track < track_head by {}
                            let j = choose|j: int| {
                                &&& #[trigger] first_min_track(oq, ops@, j)
                                &&& r == Some(oq[j])
                                &&& p.queue@ == oq.remove(j)
                            };
                            assert(removed_at(oq, p.queue@, j, r.unwrap()));
                            assert(exists|jx: int| removed_at(oq, p.queue@, jx, r.unwrap()));
                        }
                    }
                    assert(popped(oq, p.queue@, r));
                }
                r
            },
            IoScheduler::Flook(p) => {
                let ghost oq = p.queue@;
                let ghost oa = p.add_queue@;
                proof {
                    assert forall|i: int| 0 <= i < oq.len()
                        implies (#[trigger] oq[i]) < ops@.len() by {
                        assert((oq + oa)[i] == oq[i]);
                    }
                    assert forall|i: int| 0 <= i < oa.len()
                        implies (#[trigger] oa[i]) < ops@.len() by {
                        assert((oq + oa)[oq.len() + i] == oa[i]);
                    }
                }
                let r = p.next(track_head, ops);
                proof {
                    if oq.len() > 0 {
                        let j = choose|j: int| {
                            &&& #[trigger] first_min_dist_dir(oq, ops@, track_head as int, p.dir as int, j)
                            &&& r == Some(oq[j])
                            &&& p.queue@ == oq.remove(j)
                            &&& p.add_queue@ == oa
                        };
                        assert((oq + oa).remove(j) =~= oq.remove(j) + oa);
                        assert((oq + oa)[j] == oq[j]);
                        assert(removed_at(oq + oa, p.queue@ + p.add_queue@, j, r.unwrap()));
                        assert(exists|jx: int|
                            removed_at(oq + oa, p.queue@ + p.add_queue@, jx, r.unwrap()));
                    } else if oa.len() > 0 {
                        let j = choose|j: int| {
                            &&& #[trigger] first_min_dist_dir(oa, ops@, track_head as int, p.dir as int, j)
                            &&& r == Some(oa[j])
                            &&& p.queue@ == oa.remove(j)
                            &&& p.add_queue@ == Seq::<usize>::empty()
                        };
                        assert((oq + oa) =~= oa);
                        assert(p.queue@ + p.add_queue@ =~= oa.remove(j));
                        assert((oq + oa).remove(j) =~= oa.remove(j));
                        assert(removed_at(oq + oa, p.queue@ + p.add_queue@, j, r.unwrap()));
                        assert(exists|jx: int|
                            removed_at(oq + oa, p.queue@ + p.add_queue@, jx, r.unwrap()));
                    } else {
                        assert(p.queue@ + p.add_queue@ =~= oq + oa);
                    }
                    assert(popped(oq + oa, p.queue@ + p.add_queue@, r));
                }
                r
            },
        }
    }
}

} // verus!
