//! Building blocks of the CPU-scheduler skeleton: the process record, a
//! replayable random-number stream, and a round-robin process queue.

use vstd::prelude::*;

verus! {

/// The lifecycle states of a scheduled process.
#[allow(non_camel_case_types)]
#[derive(Clone, Copy, PartialEq, Eq, Debug)]
pub enum State {
    CREATED,
    READY,
    RUNNG,
    BLOCK,
    DONE,
}

/// One process: its input quadruple (arrival, total CPU, CPU-burst and
/// I/O-burst bounds) and its accounting fields.
pub struct Process {
    pub id: usize,
    pub at: usize,
    pub tc: usize,
    pub cb: usize,
    pub io: usize,
    pub state: State,
    pub remaining: usize,
    pub start: usize,
    pub end: usize,
    pub wait: usize,
    pub turnaround: usize,
    pub current_burst: usize,
    pub prempted: bool,
}

impl Process {
    /// A freshly created process: all of its total CPU time remains, and it
    /// has run, waited, and finished nothing.
    pub fn new(
        id: usize,
        at: usize,
        tc: usize,
        cb: usize,
        io: usize,
        _randgen: &RandGenerator,
        _maxprio: usize,
    ) -> (p: Process)
        ensures
            p.id == id && p.at == at && p.tc == tc && p.cb == cb && p.io == io,
            p.state is CREATED,
            p.remaining == tc,
            p.start == 0 && p.end == 0 && p.wait == 0 && p.turnaround == 0,
            p.current_burst == 0,
            !p.prempted,
    {
        Process {
            id,
            at,
            tc,
            cb,
            io,
            state: State::CREATED,
            remaining: tc,
            start: 0,
            end: 0,
            wait: 0,
            turnaround: 0,
            current_burst: 0,
            prempted: false,
        }
    }
}

/// A replayable stream of random numbers: values are handed out from the
/// back of the queue, and the queue is refilled from its initial contents
/// when it runs dry — as rereading the unchanged source would.
pub struct RandGenerator {
    pub filename: String,
    pub queue: Vec<u32>,
    pub initial: Vec<u32>,
}

impl RandGenerator {
    /// The stream can always be refilled.
    pub open spec fn wf(self) -> bool {
        self.initial@.len() > 0
    }

    /// A stream that will hand out `numbers` from last to first, over and
    /// over.
    pub fn new(filename: String, numbers: Vec<u32>) -> (g: RandGenerator)
        requires
            numbers@.len() > 0,
        ensures
            g.wf(),
            g.queue@ == numbers@,
            g.initial@ == numbers@,
            g.filename@ == filename@,
    {
        let initial = numbers.clone();
        RandGenerator { filename, queue: numbers, initial }
    }

    /// The next number: the back of the queue, refilled from the initial
    /// contents when empty.
    pub fn get_rand(&mut self) -> (r: u32)
        requires
            old(self).wf(),
        ensures
            final(self).wf(),
            final(self).initial@ == old(self).initial@,
            old(self).queue@.len() > 0 ==> r == old(self).queue@.last()
                && final(self).queue@ == old(self).queue@.drop_last(),
            old(self).queue@.len() == 0 ==> r == old(self).initial@.last()
                && final(self).queue@ == old(self).initial@.drop_last(),
    {
        if self.queue.len() == 0 {
            self.queue = self.initial.clone();
        }
        let r = match self.queue.pop() {
            Some(v) => v,
            None => 0,
        };
        r
    }
}

/// A round-robin queue of process names.
pub struct Scheduler {
    pub processes: Vec<String>,
    pub current: usize,
}

impl Scheduler {
    /// The cursor always points at a process, once there is one.
    pub open spec fn wf(self) -> bool {
        if self.processes@.len() == 0 {
            self.current == 0
        } else {
            self.current < self.processes@.len()
        }
    }

    pub fn new() -> (s: Scheduler)
        ensures
            s.wf(),
            s.processes@.len() == 0,
            s.current == 0,
    {
        Scheduler { processes: Vec::new(), current: 0 }
    }

    pub fn add_process(&mut self, process: String)
        requires
            old(self).wf(),
        ensures
            final(self).wf(),
            final(self).processes@ == old(self).processes@.push(process),
            final(self).current == old(self).current,
    {
        self.processes.push(process);
    }

    /// The process under the cursor, advancing the cursor one place round.
    pub fn get_next_process(&mut self) -> (r: Option<&String>)
        requires
            old(self).wf(),
        ensures
            final(self).wf(),
            final(self).processes@ == old(self).processes@,
            old(self).processes@.len() == 0 ==> r is None && final(self).current == 0,
            old(self).processes@.len() > 0 ==> {
                &&& r matches Some(s) && s@ == old(self).processes@[old(self).current as int]@
                &&& final(self).current == (old(self).current + 1) as int % old(self).processes@.len() as int
            },
    {
        if self.processes.len() == 0 {
            None
        } else {
            let len = self.processes.len();
            let cur = self.current;
            self.current = (cur + 1) % len;
            Some(&self.processes[cur])
        }
    }
}

} // verus!
