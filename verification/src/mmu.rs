//! Demand-paging MMU simulator: virtual memory areas, page tables,
//! a bounded pool of physical frames, and instruction processing.

use vstd::prelude::*;
use crate::pagers::{
    occ, frames_all_occupied, frames_index_procs, pager_history_ok, procs_only_ref_cleared,
    same_occupancy, select_post, Pager,
};

verus! {

/// Every process has a page table of exactly this many virtual pages.
pub const NUM_PAGES: usize = 64;

/// A virtual memory area: a contiguous range of virtual pages sharing
/// protection and mapping attributes.
#[derive(Clone, Copy)]
pub struct VMA {
    pub start: usize,
    pub end: usize,
    pub write_protected: bool,
    pub file_mapped: bool,
}

impl VMA {
    pub fn new(start: usize, end: usize, write_protected: bool, file_mapped: bool) -> (v: VMA)
        ensures
            v.start == start,
            v.end == end,
            v.write_protected == write_protected,
            v.file_mapped == file_mapped,
    {
        VMA { start, end, write_protected, file_mapped }
    }
}

/// Does the area cover virtual page `page`?
pub open spec fn vma_contains(v: VMA, page: int) -> bool {
    v.start <= page <= v.end
}

/// The first area in `vmas` that covers `page`, if any.
pub open spec fn find_vma(vmas: Seq<VMA>, page: int) -> Option<VMA>
    decreases vmas.len(),
{
    if vmas.len() == 0 {
        None
    } else if vma_contains(vmas[0], page) {
        Some(vmas[0])
    } else {
        find_vma(vmas.drop_first(), page)
    }
}

/// A page table entry.  `frame` is meaningful only while `present` holds.
/// `write_protected`, `file_mapped` and `is_valid_vma` are derived from the
/// process's areas once, at process creation.
#[derive(Clone, Copy)]
pub struct PTE {
    pub frame: Option<usize>,
    pub present: bool,
    pub referenced: bool,
    pub modified: bool,
    pub write_protected: bool,
    pub paged_out: bool,
    pub file_mapped: bool,
    pub is_valid_vma: bool,
}

/// The entry every page table starts from, with the derived attributes of
/// virtual page `page` under the areas `vmas`.
pub open spec fn initial_pte(vmas: Seq<VMA>, page: int) -> PTE {
    match find_vma(vmas, page) {
        Some(v) => PTE {
            frame: None,
            present: false,
            referenced: false,
            modified: false,
            write_protected: v.write_protected,
            paged_out: false,
            file_mapped: v.file_mapped,
            is_valid_vma: true,
        },
        None => PTE {
            frame: None,
            present: false,
            referenced: false,
            modified: false,
            write_protected: false,
            paged_out: false,
            file_mapped: false,
            is_valid_vma: false,
        },
    }
}

/// A process: its areas, its page table, and its nine event counters.
pub struct Process {
    pub vmas: Vec<VMA>,
    pub page_table: Vec<PTE>,
    pub unmaps: u64,
    pub maps: u64,
    pub ins: u64,
    pub outs: u64,
    pub fins: u64,
    pub fouts: u64,
    pub zeros: u64,
    pub segv: u64,
    pub segprot: u64,
}

proof fn lemma_find_vma_at(vmas: Seq<VMA>, page: int, i: int)
    requires
        0 <= i < vmas.len(),
        forall|j: int| 0 <= j < i ==> !vma_contains(vmas[j], page),
        vma_contains(vmas[i], page),
    ensures
        find_vma(vmas, page) == Some(vmas[i]),
    decreases i,
{
    if i > 0 {
        lemma_find_vma_at(vmas.drop_first(), page, i - 1);
    }
}

proof fn lemma_find_vma_none(vmas: Seq<VMA>, page: int)
    requires
        forall|j: int| 0 <= j < vmas.len() ==> !vma_contains(vmas[j], page),
    ensures
        find_vma(vmas, page) is None,
    decreases vmas.len(),
{
    if vmas.len() > 0 {
        lemma_find_vma_none(vmas.drop_first(), page);
    }
}

/// Search the areas for the first one covering `page`.
fn find_vma_exec(vmas: &Vec<VMA>, page: usize) -> (r: Option<VMA>)
    ensures
        r == find_vma(vmas@, page as int),
{
    let n = vmas.len();
    let mut i: usize = 0;
    while i < n
        invariant
            n == vmas@.len(),
            0 <= i <= n,
            forall|j: int| 0 <= j < i ==> !vma_contains(vmas@[j], page as int),
        decreases n - i,
    {
        let v = vmas[i];
        if v.start <= page && page <= v.end {
            proof {
                lemma_find_vma_at(vmas@, page as int, i as int);
            }
            return Some(v);
        }
        i = i + 1;
    }
    proof {
        lemma_find_vma_none(vmas@, page as int);
    }
    None
}

impl Process {
    /// Build a process over the given areas: a page table of `NUM_PAGES`
    /// entries whose derived attributes come from the first covering area,
    /// and all counters at zero.
    pub fn new(vmas: Vec<VMA>) -> (p: Process)
        ensures
            p.vmas@ == vmas@,
            p.page_table@.len() == NUM_PAGES,
            forall|v: int| 0 <= v < NUM_PAGES ==> p.page_table@[v] == initial_pte(vmas@, v),
            p.unmaps == 0 && p.maps == 0 && p.ins == 0 && p.outs == 0 && p.fins == 0,
            p.fouts == 0 && p.zeros == 0 && p.segv == 0 && p.segprot == 0,
    {
        let mut entries: Vec<PTE> = Vec::new();
        let mut vpage: usize = 0;
        while vpage < NUM_PAGES
            invariant
                0 <= vpage <= NUM_PAGES,
                entries@.len() == vpage,
                forall|v: int| 0 <= v < vpage ==> entries@[v] == initial_pte(vmas@, v),
            decreases NUM_PAGES - vpage,
        {
            let found = find_vma_exec(&vmas, vpage);
            let (write_protected, file_mapped, is_valid_vma) = match found {
                Some(v) => (v.write_protected, v.file_mapped, true),
                None => (false, false, false),
            };
            entries.push(PTE {
                frame: None,
                present: false,
                referenced: false,
                modified: false,
                write_protected,
                paged_out: false,
                file_mapped,
                is_valid_vma,
            });
            vpage = vpage + 1;
        }
        Process {
            vmas,
            page_table: entries,
            unmaps: 0,
            maps: 0,
            ins: 0,
            outs: 0,
            fins: 0,
            fouts: 0,
            zeros: 0,
            segv: 0,
            segprot: 0,
        }
    }
}

/// The occupant of a physical frame: which process's page it holds, and the
/// replacement-policy metadata (`age` doubles as the last-use instruction
/// index under the working-set policy).
#[derive(Clone, Copy)]
pub struct Frame {
    pub pid: usize,
    pub vpage: usize,
    pub age: u32,
}

/// One line of the instruction trace.
#[derive(Clone, Copy, PartialEq, Eq, Debug)]
pub enum TraceEvent {
    Segv,
    Unmap { pid: usize, vpage: usize },
    Out,
    Fout,
    In,
    Fin,
    Zero,
    MapFrame { frame: usize },
    Segprot,
    ExitProc { pid: usize },
}

/// One simulated instruction.
#[derive(Clone, Copy, PartialEq, Eq, Debug)]
pub enum Instr {
    Ctx(usize),
    Read(usize),
    Write(usize),
    Exit(usize),
}

/// The bounds every per-process counter obeys after `ic` instructions: one
/// map, populate, or violation per instruction, and at most `NUM_PAGES`
/// unmaps or file write-backs (on a process exit) per instruction.
pub open spec fn proc_counters_ok(p: Process, ic: int) -> bool {
    &&& p.unmaps <= 64 * ic
    &&& p.fouts <= 64 * ic
    &&& p.maps <= ic
    &&& p.ins <= ic
    &&& p.outs <= ic
    &&& p.fins <= ic
    &&& p.zeros <= ic
    &&& p.segv <= ic
    &&& p.segprot <= ic
}

/// Table sizes are as expected.
pub open spec fn tables_shape_at(ft: Seq<Option<Frame>>, procs: Seq<Process>) -> bool {
    &&& ft.len() >= 1
    &&& forall|p: int| 0 <= p < procs.len() ==> (#[trigger] procs[p]).page_table@.len() == NUM_PAGES
}

/// Every occupied frame holds a page that is present and points back at
/// that frame.
pub open spec fn frames_to_ptes_at(ft: Seq<Option<Frame>>, procs: Seq<Process>) -> bool {
    forall|f: int|
        0 <= f < ft.len() && (#[trigger] ft[f]) is Some ==> {
            let fr = ft[f].unwrap();
            &&& fr.pid < procs.len()
            &&& fr.vpage < NUM_PAGES
            &&& procs[fr.pid as int].page_table@[fr.vpage as int].present
            &&& procs[fr.pid as int].page_table@[fr.vpage as int].frame == Some(f as usize)
        }
}

/// Every present page points at a frame occupied by exactly that page.
pub open spec fn ptes_to_frames_at(ft: Seq<Option<Frame>>, procs: Seq<Process>) -> bool {
    forall|p: int, v: int|
        0 <= p < procs.len() && 0 <= v < NUM_PAGES
            && (#[trigger] procs[p].page_table@[v]).present ==> {
            let fo = procs[p].page_table@[v].frame;
            &&& fo is Some
            &&& fo.unwrap() < ft.len()
            &&& ft[fo.unwrap() as int] is Some
            &&& ft[fo.unwrap() as int].unwrap().pid == p
            &&& ft[fo.unwrap() as int].unwrap().vpage == v
        }
}

/// The free queue holds exactly the unoccupied frames, each once.
pub open spec fn free_wf_at(ft: Seq<Option<Frame>>, free: Seq<usize>) -> bool {
    &&& forall|i: int|
        0 <= i < free.len() ==> (#[trigger] free[i]) < ft.len() && ft[free[i] as int] is None
    &&& free.no_duplicates()
    &&& forall|f: int|
        0 <= f < ft.len() && (#[trigger] ft[f]) is None ==> free.contains(f as usize)
}

/// The whole simulator state: the global frame table, the queue of free
/// frames (in release order), the replacement policy, and the processes.
pub struct MMU {
    pub frame_table: Vec<Option<Frame>>,
    pub free_frames: Vec<usize>,
    pub pager: Pager,
    pub processes: Vec<Process>,
    pub current_process: Option<usize>,
    pub ctx_switches: u64,
    pub process_exits: u64,
    pub inst_count: usize,
}

impl MMU {
    /// Number of physical frames.
    pub open spec fn nf(self) -> int {
        self.frame_table@.len() as int
    }

    /// Number of processes.
    pub open spec fn np(self) -> int {
        self.processes@.len() as int
    }

    /// The page table entry of process `p`, virtual page `v`.
    pub open spec fn pte(self, p: int, v: int) -> PTE {
        self.processes@[p].page_table@[v]
    }

    /// Table sizes are as expected.
    pub open spec fn tables_shape(self) -> bool {
        tables_shape_at(self.frame_table@, self.processes@)
    }

    /// Every occupied frame holds a page that is present and points back at
    /// that frame.
    pub open spec fn frames_to_ptes(self) -> bool {
        frames_to_ptes_at(self.frame_table@, self.processes@)
    }

    /// Every present page points at a frame occupied by exactly that page.
    pub open spec fn ptes_to_frames(self) -> bool {
        ptes_to_frames_at(self.frame_table@, self.processes@)
    }

    /// The free queue holds exactly the unoccupied frames, each once.
    pub open spec fn free_wf(self) -> bool {
        free_wf_at(self.frame_table@, self.free_frames@)
    }

    /// A context switch has happened before any pid is current.
    pub open spec fn current_ok(self) -> bool {
        self.current_process matches Some(p) ==> p < self.np()
    }

    /// Counter bounds; also the count of instructions stays a 32-bit value.
    pub open spec fn counters_ok(self) -> bool {
        &&& self.inst_count <= 0xFFFF_FFFF
        &&& self.ctx_switches + self.process_exits <= self.inst_count
        &&& forall|p: int|
            0 <= p < self.np()
                ==> proc_counters_ok(#[trigger] self.processes@[p], self.inst_count as int)
    }

    /// The structural invariant over the tables alone.
    pub open spec fn tables_wf(self) -> bool {
        &&& self.tables_shape()
        &&& self.frames_to_ptes()
        &&& self.ptes_to_frames()
        &&& self.free_wf()
        &&& self.current_ok()
    }

    /// The full state invariant.
    pub open spec fn wf(self) -> bool {
        &&& self.tables_wf()
        &&& self.counters_ok()
        &&& self.pager.wf(self.nf())
        &&& pager_history_ok(self.pager, self.frame_table@, self.inst_count as int)
    }

    /// A fresh simulator: `num_frames` empty frames, all of them free in
    /// index order, and no instruction processed yet.
    pub fn new(
        num_frames: usize,
        pager: Pager,
        processes: Vec<Process>,
    ) -> (m: MMU)
        requires
            num_frames >= 1,
            pager.wf(num_frames as int),
            crate::pagers::pager_history_ok_fresh(pager),
            forall|p: int| 0 <= p < processes@.len() ==> {
                &&& (#[trigger] processes@[p]).page_table@.len() == NUM_PAGES
                &&& forall|v: int|
                    0 <= v < NUM_PAGES ==> !(#[trigger] processes@[p].page_table@[v]).present
                &&& proc_counters_ok(processes@[p], 0)
            },
        ensures
            m.wf(),
            m.nf() == num_frames,
            m.frame_table@ == Seq::new(num_frames as nat, |f: int| None::<Frame>),
            m.free_frames@.len() == num_frames,
            forall|i: int| 0 <= i < num_frames ==> (#[trigger] m.free_frames@[i]) == i,
            m.pager == pager,
            m.processes@ == processes@,
            m.current_process is None,
            m.ctx_switches == 0,
            m.process_exits == 0,
            m.inst_count == 0,
    {
        let mut frame_table: Vec<Option<Frame>> = Vec::new();
        let mut free_frames: Vec<usize> = Vec::new();
        let mut i: usize = 0;
        while i < num_frames
            invariant
                0 <= i <= num_frames,
                frame_table@.len() == i,
                free_frames@.len() == i,
                forall|f: int| 0 <= f < i ==> (#[trigger] frame_table@[f]) is None,
                forall|j: int| 0 <= j < i ==> (#[trigger] free_frames@[j]) == j,
            decreases num_frames - i,
        {
            frame_table.push(None);
            free_frames.push(i);
            i = i + 1;
        }
        let m = MMU {
            frame_table,
            free_frames,
            pager,
            processes,
            current_process: None,
            ctx_switches: 0,
            process_exits: 0,
            inst_count: 0,
        };
        proof {
            assert(m.frame_table@ =~= Seq::new(num_frames as nat, |f: int| None::<Frame>));
            assert forall|i1: int, j1: int|
                0 <= i1 < m.free_frames@.len() && 0 <= j1 < m.free_frames@.len() && i1 != j1
                implies m.free_frames@[i1] != m.free_frames@[j1] by {}
            assert forall|f: int| 0 <= f < m.nf() && (#[trigger] m.frame_table@[f]) is None
                implies m.free_frames@.contains(f as usize) by {
                assert(m.free_frames@[f] == f as usize);
            }
            assert(m.tables_shape());
            assert(m.frames_to_ptes());
            assert(m.ptes_to_frames());
            assert(m.free_wf());
            assert(m.current_ok());
            assert(m.counters_ok());
        }
        m
    }
}

/// The victim's entry after eviction: no longer present, a modified page's
/// dirt is written back, and a modified anonymous page is now on swap.
pub open spec fn evicted_pte(e: PTE) -> PTE {
    PTE {
        present: false,
        modified: false,
        paged_out: e.paged_out || (e.modified && !e.file_mapped),
        ..e
    }
}

/// The trace of evicting the page `(p, v)` whose entry was `e`.
pub open spec fn evict_events(p: usize, v: usize, e: PTE) -> Seq<TraceEvent> {
    seq![TraceEvent::Unmap { pid: p, vpage: v }] + if e.modified {
        if e.file_mapped {
            seq![TraceEvent::Fout]
        } else {
            seq![TraceEvent::Out]
        }
    } else {
        Seq::empty()
    }
}

/// `n` is `o` after evicting the occupant of page `v`: that entry is
/// replaced and the unmap and write-back counters advance.
pub open spec fn proc_evict_rel(o: Process, n: Process, v: int) -> bool {
    let e = o.page_table@[v];
    &&& n.vmas@ == o.vmas@
    &&& n.page_table@ == o.page_table@.update(v, evicted_pte(e))
    &&& n.unmaps == o.unmaps + 1
    &&& n.fouts == o.fouts + (if e.modified && e.file_mapped { 1int } else { 0 })
    &&& n.outs == o.outs + (if e.modified && !e.file_mapped { 1int } else { 0 })
    &&& n.maps == o.maps && n.ins == o.ins && n.fins == o.fins && n.zeros == o.zeros
    &&& n.segv == o.segv && n.segprot == o.segprot
}

/// All processes agree except possibly process `p`.
pub open spec fn same_except(o: Seq<Process>, n: Seq<Process>, p: int) -> bool {
    &&& n.len() == o.len()
    &&& forall|q: int| 0 <= q < o.len() && q != p ==> #[trigger] n[q] == o[q]
}

/// A frame was reclaimed by evicting its occupant: the policy ran first
/// (taking the tables from `pre` to `mft`/`mprocs`), then the occupant of
/// the chosen frame `f` was unmapped.
pub open spec fn evict_outcome(
    pre: MMU,
    post: MMU,
    mft: Seq<Option<Frame>>,
    mprocs: Seq<Process>,
    f: usize,
    idx: int,
    oev: Seq<TraceEvent>,
    nev: Seq<TraceEvent>,
) -> bool {
    &&& select_post(pre.pager, post.pager, pre.frame_table@, mft, pre.processes@, mprocs, idx, f)
    &&& same_occupancy(pre.frame_table@, mft)
    &&& procs_only_ref_cleared(pre.processes@, mprocs)
    &&& mft.len() == pre.nf()
    &&& f < mft.len()
    &&& mft[f as int] is Some
    &&& {
        let vic = occ(mft, f as int);
        let e = mprocs[vic.pid as int].page_table@[vic.vpage as int];
        &&& post.free_frames@ == pre.free_frames@
        &&& post.frame_table@ == mft.update(f as int, None)
        &&& same_except(mprocs, post.processes@, vic.pid as int)
        &&& proc_evict_rel(mprocs[vic.pid as int], post.processes@[vic.pid as int], vic.vpage as int)
        &&& nev == oev + evict_events(vic.pid, vic.vpage, e)
    }
}

/// The exact effect of acquiring a frame: either the head of the free queue
/// was taken, or (the queue being empty) a victim was evicted.
pub open spec fn get_frame_post(
    pre: MMU,
    post: MMU,
    f: usize,
    idx: int,
    oev: Seq<TraceEvent>,
    nev: Seq<TraceEvent>,
) -> bool {
    &&& post.current_process == pre.current_process
    &&& post.ctx_switches == pre.ctx_switches
    &&& post.process_exits == pre.process_exits
    &&& post.inst_count == pre.inst_count
    &&& if pre.free_frames@.len() > 0 {
        &&& f == pre.free_frames@[0]
        &&& post.free_frames@ == pre.free_frames@.drop_first()
        &&& post.frame_table@ == pre.frame_table@
        &&& post.processes@ == pre.processes@
        &&& post.pager == pre.pager
        &&& nev == oev
    } else {
        exists|mft: Seq<Option<Frame>>, mprocs: Seq<Process>|
            evict_outcome(pre, post, mft, mprocs, f, idx, oev, nev)
    }
}

impl MMU {
    /// The structural invariant while frame `f` is held by the fault
    /// handler: the frame is empty and in nobody's hands but the caller's.
    pub open spec fn wf_hole(self, f: int) -> bool {
        &&& self.tables_shape()
        &&& self.frames_to_ptes()
        &&& self.ptes_to_frames()
        &&& self.current_ok()
        &&& 0 <= f < self.nf()
        &&& self.frame_table@[f] is None
        &&& !self.free_frames@.contains(f as usize)
        &&& forall|i: int|
            0 <= i < self.free_frames@.len() ==> (#[trigger] self.free_frames@[i]) < self.nf()
                && self.frame_table@[self.free_frames@[i] as int] is None
        &&& self.free_frames@.no_duplicates()
        &&& forall|g: int|
            0 <= g < self.nf() && g != f && (#[trigger] self.frame_table@[g]) is None
                ==> self.free_frames@.contains(g as usize)
    }

    /// Take the head of the free queue, or have the policy choose a victim
    /// and evict its occupant.
    #[verifier::rlimit(100)]
    pub fn get_frame(&mut self, instr_idx: usize, events: &mut Vec<TraceEvent>) -> (f: usize)
        requires
            old(self).wf(),
            instr_idx == old(self).inst_count,
            instr_idx < 0xFFFF_FFFF,
        ensures
            f < old(self).nf(),
            final(self).wf_hole(f as int),
            final(self).pager.wf(final(self).nf()),
            pager_history_ok(final(self).pager, final(self).frame_table@, instr_idx + 1),
            get_frame_post(*old(self), *final(self), f, instr_idx as int, old(events)@, final(events)@),
    {
        if self.free_frames.len() > 0 {
            let f = self.free_frames.remove(0);
            proof {
                let ofree = old(self).free_frames@;
                let nfree = self.free_frames@;
                assert forall|i: int| 0 <= i < nfree.len() implies (#[trigger] nfree[i])
                    == ofree[i + 1] by {}
                assert(nfree.no_duplicates());
                assert(!nfree.contains(f)) by {
                    if nfree.contains(f) {
                        let i = choose|i: int| 0 <= i < nfree.len() && nfree[i] == f;
                        assert(ofree[i + 1] == f);
                        assert(ofree[0] == f);
                    }
                }
                assert forall|g: int|
                    0 <= g < self.nf() && g != f && (#[trigger] self.frame_table@[g]) is None
                    implies self.free_frames@.contains(g as usize) by {
                    assert(ofree.contains(g as usize));
                    let i = choose|i: int| 0 <= i < ofree.len() && ofree[i] == g as usize;
                    assert(i != 0);
                    assert(nfree[i - 1] == g as usize);
                }
            }
            return f;
        }

        proof {
            assert forall|g: int| 0 <= g < self.nf()
                implies (#[trigger] self.frame_table@[g]) is Some by {
                if self.frame_table@[g] is None {
                    assert(self.free_frames@.contains(g as usize));
                }
            }
            assert forall|f1: int, f2: int|
                0 <= f1 < self.nf() && 0 <= f2 < self.nf() && f1 != f2
                    && (#[trigger] self.frame_table@[f1]) is Some
                    && (#[trigger] self.frame_table@[f2]) is Some
                implies !(occ(self.frame_table@, f1).pid == occ(self.frame_table@, f2).pid
                    && occ(self.frame_table@, f1).vpage == occ(self.frame_table@, f2).vpage) by {
                let fr1 = self.frame_table@[f1].unwrap();
                if fr1.pid == occ(self.frame_table@, f2).pid
                    && fr1.vpage == occ(self.frame_table@, f2).vpage {
                    assert(self.pte(fr1.pid as int, fr1.vpage as int).frame == Some(f1 as usize));
                    assert(self.pte(fr1.pid as int, fr1.vpage as int).frame == Some(f2 as usize));
                }
            }
        }
        let f = self.pager.select_victim_frame(&mut self.frame_table, &mut self.processes, instr_idx);
        let ghost mft = self.frame_table@;
        let ghost mprocs = self.processes@;
        proof {
            lemma_tables_rel_pager_step(old(self).frame_table@, mft, old(self).processes@, mprocs);
        }
        let fr = self.frame_table[f].unwrap();
        let pid = fr.pid;
        let vpage = fr.vpage;
        proof {
            assert(occ(old(self).frame_table@, f as int).pid == pid);
            assert(occ(old(self).frame_table@, f as int).vpage == vpage);
            assert(pid < self.processes@.len());
            assert(vpage < NUM_PAGES);
            assert(self.processes@[pid as int].page_table@.len() == NUM_PAGES);
        }
        self.frame_table[f] = None;
        events.push(TraceEvent::Unmap { pid, vpage });
        let ghost e = self.processes@[pid as int].page_table@[vpage as int];
        proof {
            // the eviction counters stay far from their limits
            assert(proc_counters_ok(old(self).processes@[pid as int], old(self).inst_count as int));
            assert(self.processes@[pid as int].unmaps == old(self).processes@[pid as int].unmaps);
            assert(self.processes@[pid as int].fouts == old(self).processes@[pid as int].fouts);
            assert(self.processes@[pid as int].outs == old(self).processes@[pid as int].outs);
        }
        let proc = &mut self.processes[pid];
        proc.unmaps = proc.unmaps + 1;
        let pte = &mut proc.page_table[vpage];
        pte.present = false;
        if pte.modified {
            pte.modified = false;
            if pte.file_mapped {
                let proc2 = &mut self.processes[pid];
                proc2.fouts = proc2.fouts + 1;
                events.push(TraceEvent::Fout);
            } else {
                let pte2 = &mut self.processes[pid].page_table[vpage];
                pte2.paged_out = true;
                let proc2 = &mut self.processes[pid];
                proc2.outs = proc2.outs + 1;
                events.push(TraceEvent::Out);
            }
        }
        proof {
            assert(self.processes@[pid as int].page_table@
                =~= mprocs[pid as int].page_table@.update(vpage as int, evicted_pte(e)));
            assert(proc_evict_rel(mprocs[pid as int], self.processes@[pid as int], vpage as int));
            assert(events@ == old(events)@ + evict_events(pid, vpage, e));
            assert(evict_outcome(
                *old(self), *self, mft, mprocs, f, instr_idx as int, old(events)@, events@,
            ));
            let cur = *self;
            assert forall|g: int|
                0 <= g < cur.nf() && (#[trigger] cur.frame_table@[g]) is Some implies {
                let fr2 = cur.frame_table@[g].unwrap();
                &&& fr2.pid < cur.np()
                &&& fr2.vpage < NUM_PAGES
                &&& cur.pte(fr2.pid as int, fr2.vpage as int).present
                &&& cur.pte(fr2.pid as int, fr2.vpage as int).frame == Some(g as usize)
            } by {
                assert(g != f);
                assert(cur.frame_table@[g] == mft[g]);
                let fr2 = mft[g].unwrap();
                assert(mprocs[fr2.pid as int].page_table@[fr2.vpage as int].present);
                assert(mprocs[fr2.pid as int].page_table@[fr2.vpage as int].frame == Some(g as usize));
                assert(!(fr2.pid == pid && fr2.vpage == vpage)) by {
                    if fr2.pid == pid && fr2.vpage == vpage {
                        assert(mprocs[pid as int].page_table@[vpage as int].frame == Some(g as usize));
                        assert(mprocs[pid as int].page_table@[vpage as int].frame == Some(f));
                    }
                }
                assert(cur.pte(fr2.pid as int, fr2.vpage as int)
                    == mprocs[fr2.pid as int].page_table@[fr2.vpage as int]);
            }
            assert forall|q: int, w: int|
                0 <= q < cur.np() && 0 <= w < NUM_PAGES && (#[trigger] cur.pte(q, w)).present
                implies {
                let fo = cur.pte(q, w).frame;
                &&& fo is Some
                &&& fo.unwrap() < cur.nf()
                &&& cur.frame_table@[fo.unwrap() as int] is Some
                &&& cur.frame_table@[fo.unwrap() as int].unwrap().pid == q
                &&& cur.frame_table@[fo.unwrap() as int].unwrap().vpage == w
            } by {
                assert(!(q == pid as int && w == vpage as int));
                assert(cur.pte(q, w) == mprocs[q].page_table@[w]);
                assert(mprocs[q].page_table@[w].present);
                let fo = mprocs[q].page_table@[w].frame;
                assert(mft[fo.unwrap() as int] is Some);
                assert(occ(mft, fo.unwrap() as int).pid == q && occ(mft, fo.unwrap() as int).vpage == w);
                assert(fo.unwrap() as int != f as int) by {
                    if fo.unwrap() == f {
                        assert(occ(mft, f as int).pid == pid && occ(mft, f as int).vpage == vpage);
                    }
                }
            }
            assert forall|g: int|
                0 <= g < cur.nf() && g != f && (#[trigger] cur.frame_table@[g]) is None
                implies cur.free_frames@.contains(g as usize) by {
                assert(mft[g] is None);
                assert(old(self).frame_table@[g] is None);
                assert(old(self).free_frames@.contains(g as usize));
            }
            assert(cur.wf_hole(f as int));
            crate::pagers::lemma_pager_history_clears(
                cur.pager, mft, cur.frame_table@, instr_idx + 1,
            );
        }
        f
    }
}

/// The faulting page's entry once a frame is installed: mapped, present,
/// and referenced; the dirty and swap history bits are untouched.
pub open spec fn installed_pte(e: PTE, f: usize) -> PTE {
    PTE { frame: Some(f), present: true, referenced: true, ..e }
}

/// How a freshly mapped page is filled: from its file, from swap, or with
/// zeroes.
pub open spec fn populate_event(e: PTE) -> TraceEvent {
    if e.file_mapped {
        TraceEvent::Fin
    } else if e.paged_out {
        TraceEvent::In
    } else {
        TraceEvent::Zero
    }
}

/// `n` is `o` after page `v` was mapped into frame `f`: the entry is
/// installed and the map and populate counters advance.
pub open spec fn proc_fault_rel(o: Process, n: Process, v: int, f: usize) -> bool {
    let e = o.page_table@[v];
    &&& n.vmas@ == o.vmas@
    &&& n.page_table@ == o.page_table@.update(v, installed_pte(e, f))
    &&& n.maps == o.maps + 1
    &&& n.fins == o.fins + (if e.file_mapped { 1int } else { 0 })
    &&& n.ins == o.ins + (if !e.file_mapped && e.paged_out { 1int } else { 0 })
    &&& n.zeros == o.zeros + (if !e.file_mapped && !e.paged_out { 1int } else { 0 })
    &&& n.unmaps == o.unmaps && n.outs == o.outs && n.fouts == o.fouts
    &&& n.segv == o.segv && n.segprot == o.segprot
}

/// A change that maps and unmaps nothing — counters moving, referenced and
/// modified bits flipping — preserves the structural invariant.
pub proof fn lemma_tables_rel_pt_equal(
    ft: Seq<Option<Frame>>,
    o: Seq<Process>,
    n: Seq<Process>,
)
    requires
        tables_shape_at(ft, o),
        frames_to_ptes_at(ft, o),
        ptes_to_frames_at(ft, o),
        n.len() == o.len(),
        forall|p: int| 0 <= p < o.len() ==> (#[trigger] n[p]).page_table@.len() == o[p].page_table@.len(),
        forall|p: int, v: int|
            0 <= p < o.len() && 0 <= v < o[p].page_table@.len() ==> {
                &&& (#[trigger] n[p].page_table@[v]).present == o[p].page_table@[v].present
                &&& n[p].page_table@[v].frame == o[p].page_table@[v].frame
            },
    ensures
        tables_shape_at(ft, n),
        frames_to_ptes_at(ft, n),
        ptes_to_frames_at(ft, n),
{
    assert forall|f: int| 0 <= f < ft.len() && (#[trigger] ft[f]) is Some implies {
        let fr = ft[f].unwrap();
        &&& fr.pid < n.len()
        &&& fr.vpage < NUM_PAGES
        &&& n[fr.pid as int].page_table@[fr.vpage as int].present
        &&& n[fr.pid as int].page_table@[fr.vpage as int].frame == Some(f as usize)
    } by {
        let fr = ft[f].unwrap();
        assert(o[fr.pid as int].page_table@[fr.vpage as int].present);
    }
    assert forall|p: int, v: int|
        0 <= p < n.len() && 0 <= v < NUM_PAGES && (#[trigger] n[p].page_table@[v]).present
        implies {
        let fo = n[p].page_table@[v].frame;
        &&& fo is Some
        &&& fo.unwrap() < ft.len()
        &&& ft[fo.unwrap() as int] is Some
        &&& ft[fo.unwrap() as int].unwrap().pid == p
        &&& ft[fo.unwrap() as int].unwrap().vpage == v
    } by {
        assert(o[p].page_table@[v].present);
    }
}

/// A replacement policy's bookkeeping — clearing referenced bits and
/// rewriting ages — preserves the structural invariant.
pub proof fn lemma_tables_rel_pager_step(
    oft: Seq<Option<Frame>>,
    nft: Seq<Option<Frame>>,
    o: Seq<Process>,
    n: Seq<Process>,
)
    requires
        tables_shape_at(oft, o),
        frames_to_ptes_at(oft, o),
        ptes_to_frames_at(oft, o),
        same_occupancy(oft, nft),
        procs_only_ref_cleared(o, n),
    ensures
        tables_shape_at(nft, n),
        frames_to_ptes_at(nft, n),
        ptes_to_frames_at(nft, n),
{
    assert forall|f: int| 0 <= f < nft.len() && (#[trigger] nft[f]) is Some implies {
        let fr = nft[f].unwrap();
        &&& fr.pid < n.len()
        &&& fr.vpage < NUM_PAGES
        &&& n[fr.pid as int].page_table@[fr.vpage as int].present
        &&& n[fr.pid as int].page_table@[fr.vpage as int].frame == Some(f as usize)
    } by {
        assert(oft[f] is Some);
        let fr0 = oft[f].unwrap();
        assert(o[fr0.pid as int].page_table@[fr0.vpage as int].present);
        assert(crate::pagers::proc_only_ref_cleared(o[fr0.pid as int], n[fr0.pid as int]));
        assert(crate::pagers::pte_only_ref_cleared(
            o[fr0.pid as int].page_table@[fr0.vpage as int],
            n[fr0.pid as int].page_table@[fr0.vpage as int],
        ));
    }
    assert forall|p: int, v: int|
        0 <= p < n.len() && 0 <= v < NUM_PAGES && (#[trigger] n[p].page_table@[v]).present
        implies {
        let fo = n[p].page_table@[v].frame;
        &&& fo is Some
        &&& fo.unwrap() < nft.len()
        &&& nft[fo.unwrap() as int] is Some
        &&& nft[fo.unwrap() as int].unwrap().pid == p
        &&& nft[fo.unwrap() as int].unwrap().vpage == v
    } by {
        assert(crate::pagers::proc_only_ref_cleared(o[p], n[p]));
        assert(crate::pagers::pte_only_ref_cleared(o[p].page_table@[v], n[p].page_table@[v]));
        assert(o[p].page_table@[v].present);
    }
}

/// Per-process counters stay within their per-instruction budget.
pub open spec fn counters_ok_at(m: MMU, ic: int) -> bool {
    &&& m.ctx_switches + m.process_exits <= ic
    &&& forall|p: int| 0 <= p < m.np() ==> proc_counters_ok(#[trigger] m.processes@[p], ic)
}

/// A fault on `(p, v)` was served: a frame `f` was acquired (possibly by
/// eviction, taking `pre` to the intermediate state `mid`), the page was
/// installed in it, populated, and mapped.
pub open spec fn fault_ok_outcome(
    pre: MMU,
    post: MMU,
    mid: MMU,
    f: usize,
    mev: Seq<TraceEvent>,
    p: usize,
    v: usize,
    idx: int,
    oev: Seq<TraceEvent>,
    nev: Seq<TraceEvent>,
) -> bool {
    &&& get_frame_post(pre, mid, f, idx, oev, mev)
    &&& mid.wf_hole(f as int)
    &&& f < pre.nf()
    &&& post.pager == mid.pager
    &&& post.free_frames@ == mid.free_frames@
    &&& post.current_process == pre.current_process
    &&& post.ctx_switches == pre.ctx_switches
    &&& post.process_exits == pre.process_exits
    &&& post.inst_count == pre.inst_count
    &&& post.frame_table@ == mid.frame_table@.update(
        f as int,
        Some(Frame { pid: p, vpage: v, age: crate::pagers::update_age_spec(mid.pager, idx) }),
    )
    &&& same_except(mid.processes@, post.processes@, p as int)
    &&& p < mid.processes@.len()
    &&& proc_fault_rel(mid.processes@[p as int], post.processes@[p as int], v as int, f)
    &&& nev == mev + seq![populate_event(mid.processes@[p as int].page_table@[v as int]), TraceEvent::MapFrame { frame: f }]
}

/// The page sits in no area of its process: the reference faults to SEGV
/// and only that counter moves.
pub open spec fn segv_outcome(
    pre: MMU,
    post: MMU,
    p: usize,
    oev: Seq<TraceEvent>,
    nev: Seq<TraceEvent>,
) -> bool {
    &&& post.frame_table@ == pre.frame_table@
    &&& post.free_frames@ == pre.free_frames@
    &&& post.pager == pre.pager
    &&& post.current_process == pre.current_process
    &&& post.ctx_switches == pre.ctx_switches
    &&& post.process_exits == pre.process_exits
    &&& same_except(pre.processes@, post.processes@, p as int)
    &&& post.processes@[p as int] == Process {
        segv: (pre.processes@[p as int].segv + 1) as u64,
        ..pre.processes@[p as int]
    }
    &&& nev == oev + seq![TraceEvent::Segv]
}

impl MMU {
    /// Serve a page fault on the current process's page `vpage`: reject it
    /// with SEGV when no area covers the page, else acquire a frame, install
    /// the mapping, populate the page, and map it.
    #[verifier::rlimit(60)]
    pub fn page_fault_handler(
        &mut self,
        vpage: usize,
        idx: usize,
        events: &mut Vec<TraceEvent>,
    ) -> (r: Result<(), ()>)
        requires
            old(self).wf(),
            old(self).current_process is Some,
            vpage < NUM_PAGES,
            !old(self).pte(old(self).current_process.unwrap() as int, vpage as int).present,
            idx == old(self).inst_count,
            idx < 0xFFFF_FFFF,
        ensures
            final(self).tables_wf(),
            final(self).pager.wf(final(self).nf()),
            pager_history_ok(final(self).pager, final(self).frame_table@, idx + 1),
            counters_ok_at(*final(self), idx + 1),
            final(self).nf() == old(self).nf(),
            final(self).np() == old(self).np(),
            final(self).inst_count == old(self).inst_count,
            match r {
                Err(_) => {
                    &&& !old(self).pte(old(self).current_process.unwrap() as int, vpage as int).is_valid_vma
                    &&& segv_outcome(
                        *old(self),
                        *final(self),
                        old(self).current_process.unwrap(),
                        old(events)@,
                        final(events)@,
                    )
                },
                Ok(_) => {
                    &&& old(self).pte(old(self).current_process.unwrap() as int, vpage as int).is_valid_vma
                    &&& exists|mid: MMU, f: usize, mev: Seq<TraceEvent>| fault_ok_outcome(
                        *old(self),
                        *final(self),
                        mid,
                        f,
                        mev,
                        old(self).current_process.unwrap(),
                        vpage,
                        idx as int,
                        old(events)@,
                        final(events)@,
                    )
                },
            },
    {
        let p = self.current_process.unwrap();
        let e0 = self.processes[p].page_table[vpage];
        if !e0.is_valid_vma {
            events.push(TraceEvent::Segv);
            proof {
                assert(proc_counters_ok(self.processes@[p as int], idx as int));
            }
            let proc = &mut self.processes[p];
            proc.segv = proc.segv + 1;
            proof {
                crate::pagers::lemma_pager_history_mono(
                    self.pager, self.frame_table@, idx as int, idx + 1,
                );
                lemma_tables_rel_pt_equal(
                    self.frame_table@, old(self).processes@, self.processes@,
                );
                assert(self.processes@[p as int] == Process {
                    segv: (old(self).processes@[p as int].segv + 1) as u64,
                    ..old(self).processes@[p as int]
                });
                assert(events@ == old(events)@ + seq![TraceEvent::Segv]);
                assert(same_except(old(self).processes@, self.processes@, p as int));
                assert(segv_outcome(*old(self), *self, p, old(events)@, events@));
            }
            return Err(());
        }

        let f = self.get_frame(idx, events);
        let ghost mid = *self;
        let ghost mev = events@;
        let e = self.processes[p].page_table[vpage];
        let age = self.pager.update_age(idx);
        self.frame_table[f] = Some(Frame { pid: p, vpage, age });
        proof {
            assert(proc_counters_ok(old(self).processes@[p as int], idx as int));
            assert(mid.processes@[p as int].maps == old(self).processes@[p as int].maps
                && mid.processes@[p as int].fins == old(self).processes@[p as int].fins
                && mid.processes@[p as int].ins == old(self).processes@[p as int].ins
                && mid.processes@[p as int].zeros == old(self).processes@[p as int].zeros) by {
                if old(self).free_frames@.len() > 0 {
                } else {
                    let (mft2, mprocs2) = choose|mft2: Seq<Option<Frame>>, mprocs2: Seq<Process>|
                        evict_outcome(*old(self), mid, mft2, mprocs2, f, idx as int, old(events)@, mev);
                    assert(crate::pagers::proc_only_ref_cleared(
                        old(self).processes@[p as int], mprocs2[p as int]));
                    let vic = occ(mft2, f as int);
                    if vic.pid == p {
                        assert(proc_evict_rel(mprocs2[p as int], mid.processes@[p as int], vic.vpage as int));
                    } else {
                        assert(mid.processes@[p as int] == mprocs2[p as int]);
                    }
                }
            }
        }
        let proc = &mut self.processes[p];
        let pte = &mut proc.page_table[vpage];
        pte.present = true;
        pte.frame = Some(f);
        pte.referenced = true;
        if e.file_mapped {
            events.push(TraceEvent::Fin);
            let proc2 = &mut self.processes[p];
            proc2.fins = proc2.fins + 1;
        } else if e.paged_out {
            events.push(TraceEvent::In);
            let proc2 = &mut self.processes[p];
            proc2.ins = proc2.ins + 1;
        } else {
            events.push(TraceEvent::Zero);
            let proc2 = &mut self.processes[p];
            proc2.zeros = proc2.zeros + 1;
        }
        events.push(TraceEvent::MapFrame { frame: f });
        let proc3 = &mut self.processes[p];
        proc3.maps = proc3.maps + 1;

        proof {
            assert(self.processes@[p as int].page_table@
                =~= mid.processes@[p as int].page_table@.update(vpage as int, installed_pte(e, f)));
            assert(proc_fault_rel(mid.processes@[p as int], self.processes@[p as int], vpage as int, f));
            assert(events@ =~= mev + seq![
                populate_event(mid.processes@[p as int].page_table@[vpage as int]),
                TraceEvent::MapFrame { frame: f },
            ]);
            assert(fault_ok_outcome(
                *old(self), *self, mid, f, mev, p, vpage, idx as int, old(events)@, events@,
            ));

            // the structural invariant is restored by the installation
            let nft = self.frame_table@;
            let nprocs = self.processes@;
            assert forall|g: int| 0 <= g < nft.len() && (#[trigger] nft[g]) is Some implies {
                let fr = nft[g].unwrap();
                &&& fr.pid < nprocs.len()
                &&& fr.vpage < NUM_PAGES
                &&& nprocs[fr.pid as int].page_table@[fr.vpage as int].present
                &&& nprocs[fr.pid as int].page_table@[fr.vpage as int].frame == Some(g as usize)
            } by {
                if g != f {
                    assert(mid.frame_table@[g] is Some);
                    let fr = mid.frame_table@[g].unwrap();
                    assert(mid.processes@[fr.pid as int].page_table@[fr.vpage as int].present);
                    assert(!(fr.pid == p && fr.vpage == vpage));
                }
            }
            assert forall|q: int, w: int|
                0 <= q < nprocs.len() && 0 <= w < NUM_PAGES
                    && (#[trigger] nprocs[q].page_table@[w]).present implies {
                let fo = nprocs[q].page_table@[w].frame;
                &&& fo is Some
                &&& fo.unwrap() < nft.len()
                &&& nft[fo.unwrap() as int] is Some
                &&& nft[fo.unwrap() as int].unwrap().pid == q
                &&& nft[fo.unwrap() as int].unwrap().vpage == w
            } by {
                if q == p as int && w == vpage as int {
                } else {
                    assert(nprocs[q].page_table@[w] == mid.processes@[q].page_table@[w]);
                    assert(mid.processes@[q].page_table@[w].present);
                    let fo = mid.processes@[q].page_table@[w].frame;
                    assert(fo.unwrap() as int != f as int);
                }
            }
            assert(tables_shape_at(nft, nprocs));
            assert(free_wf_at(nft, self.free_frames@)) by {
                assert forall|g: int|
                    0 <= g < nft.len() && (#[trigger] nft[g]) is None
                    implies self.free_frames@.contains(g as usize) by {
                    assert(g != f);
                    assert(mid.frame_table@[g] is None);
                }
            }
            assert(counters_ok_at(*self, idx + 1)) by {
                assert forall|q: int| 0 <= q < self.np()
                    implies proc_counters_ok(#[trigger] self.processes@[q], idx + 1) by {
                    if old(self).free_frames@.len() > 0 {
                        assert(mid.processes@ == old(self).processes@);
                        assert(proc_counters_ok(old(self).processes@[q], idx as int));
                    } else {
                        let (mft2, mprocs2) = choose|mft2: Seq<Option<Frame>>, mprocs2: Seq<Process>|
                            evict_outcome(*old(self), mid, mft2, mprocs2, f, idx as int, old(events)@, mev);
                        assert(crate::pagers::proc_only_ref_cleared(
                            old(self).processes@[q], mprocs2[q]));
                        assert(proc_counters_ok(old(self).processes@[q], idx as int));
                    }
                }
            }
            assert(pager_history_ok(self.pager, self.frame_table@, idx + 1)) by {
                crate::pagers::lemma_pager_history_install(
                    self.pager, mid.frame_table@, f as int,
                    Frame { pid: p, vpage, age },
                    idx + 1,
                );
            }
        }
        Ok(())
    }
}

/// A page table entry once its process has exited: not present, never on
/// swap; a page that held a frame forgets it.
pub open spec fn exit_pte(e: PTE) -> PTE {
    PTE {
        paged_out: false,
        present: false,
        frame: if e.present { None } else { e.frame },
        ..e
    }
}

/// The trace one page contributes to a process exit.
pub open spec fn page_exit_events(e: PTE, pid: usize, v: usize) -> Seq<TraceEvent> {
    if e.present {
        seq![TraceEvent::Unmap { pid, vpage: v }] + if e.modified && e.file_mapped {
            seq![TraceEvent::Fout]
        } else {
            Seq::empty()
        }
    } else {
        Seq::empty()
    }
}

/// The trace of unmapping the first `upto` pages at exit, in page order.
pub open spec fn exit_events(pt: Seq<PTE>, pid: usize, upto: int) -> Seq<TraceEvent>
    decreases upto,
{
    if upto <= 0 {
        Seq::empty()
    } else {
        exit_events(pt, pid, upto - 1) + page_exit_events(pt[upto - 1], pid, (upto - 1) as usize)
    }
}

/// How many of the first `upto` pages are present.
pub open spec fn count_present(pt: Seq<PTE>, upto: int) -> int
    decreases upto,
{
    if upto <= 0 {
        0
    } else {
        count_present(pt, upto - 1) + if pt[upto - 1].present { 1int } else { 0 }
    }
}

/// How many of the first `upto` pages are written back to their file at exit.
pub open spec fn count_exit_fouts(pt: Seq<PTE>, upto: int) -> int
    decreases upto,
{
    if upto <= 0 {
        0
    } else {
        count_exit_fouts(pt, upto - 1) + if pt[upto - 1].present && pt[upto - 1].modified
            && pt[upto - 1].file_mapped { 1int } else { 0 }
    }
}

/// The frames released by the first `upto` pages, in page order.
pub open spec fn freed_frames(pt: Seq<PTE>, upto: int) -> Seq<usize>
    decreases upto,
{
    if upto <= 0 {
        Seq::empty()
    } else {
        freed_frames(pt, upto - 1) + if pt[upto - 1].present {
            seq![pt[upto - 1].frame.unwrap()]
        } else {
            Seq::empty()
        }
    }
}

proof fn lemma_count_present_le(pt: Seq<PTE>, upto: int)
    requires
        upto >= 0,
    ensures
        0 <= count_present(pt, upto) <= upto,
        0 <= count_exit_fouts(pt, upto) <= upto,
    decreases upto,
{
    if upto > 0 {
        lemma_count_present_le(pt, upto - 1);
    }
}

/// The exact effect of a process exit on everything but the instruction
/// counter: every page of `pid` is cleansed of its swap history, its present
/// pages are unmapped, and their frames go to the back of the free queue in
/// page order.
pub open spec fn exit_outcome(
    pre: MMU,
    post: MMU,
    pid: usize,
    oev: Seq<TraceEvent>,
    nev: Seq<TraceEvent>,
) -> bool {
    let pr = pre.processes@[pid as int];
    &&& pid < pre.np()
    &&& same_except(pre.processes@, post.processes@, pid as int)
    &&& post.processes@[pid as int].vmas@ == pr.vmas@
    &&& post.processes@[pid as int].page_table@.len() == pr.page_table@.len()
    &&& forall|v: int|
        0 <= v < pr.page_table@.len()
            ==> (#[trigger] post.processes@[pid as int].page_table@[v]) == exit_pte(pr.page_table@[v])
    &&& post.processes@[pid as int].unmaps == pr.unmaps + count_present(pr.page_table@, NUM_PAGES as int)
    &&& post.processes@[pid as int].fouts == pr.fouts + count_exit_fouts(pr.page_table@, NUM_PAGES as int)
    &&& post.processes@[pid as int].maps == pr.maps
    &&& post.processes@[pid as int].ins == pr.ins
    &&& post.processes@[pid as int].outs == pr.outs
    &&& post.processes@[pid as int].fins == pr.fins
    &&& post.processes@[pid as int].zeros == pr.zeros
    &&& post.processes@[pid as int].segv == pr.segv
    &&& post.processes@[pid as int].segprot == pr.segprot
    &&& post.frame_table@.len() == pre.frame_table@.len()
    &&& forall|g: int|
        0 <= g < pre.nf() ==> (#[trigger] post.frame_table@[g]) == (
            if pre.frame_table@[g] is Some && occ(pre.frame_table@, g).pid == pid {
                None::<Frame>
            } else {
                pre.frame_table@[g]
            }
        )
    &&& post.free_frames@ == pre.free_frames@ + freed_frames(pr.page_table@, NUM_PAGES as int)
    &&& post.pager == pre.pager
    &&& post.current_process == pre.current_process
    &&& post.ctx_switches == pre.ctx_switches
    &&& post.process_exits == pre.process_exits + 1
    &&& nev == oev + seq![TraceEvent::ExitProc { pid }] + exit_events(pr.page_table@, pid, NUM_PAGES as int)
}

/// A context switch in full: the pid becomes current, one counter moves,
/// nothing else happens, nothing is traced.
pub open spec fn ctx_outcome(
    pre: MMU,
    post: MMU,
    pid: usize,
    oev: Seq<TraceEvent>,
    nev: Seq<TraceEvent>,
) -> bool {
    &&& post == MMU {
        current_process: Some(pid),
        ctx_switches: (pre.ctx_switches + 1) as u64,
        inst_count: (pre.inst_count + 1) as usize,
        ..pre
    }
    &&& nev == oev
}

/// The entry after the access itself: referenced, and dirtied by an allowed
/// write.
pub open spec fn accessed_pte(e: PTE, is_write: bool) -> PTE {
    PTE {
        referenced: true,
        modified: e.modified || (is_write && !e.write_protected),
        ..e
    }
}

/// The tail every read or write ends with once the page is present in `h`:
/// the hardware bits are set, and a write to a protected page is refused.
pub open spec fn access_tail(
    h: MMU,
    post: MMU,
    p: usize,
    v: usize,
    is_write: bool,
    hev: Seq<TraceEvent>,
    nev: Seq<TraceEvent>,
) -> bool {
    let e = h.pte(p as int, v as int);
    let hit_prot = is_write && e.write_protected;
    &&& p < h.np()
    &&& same_except(h.processes@, post.processes@, p as int)
    &&& post.processes@[p as int].vmas@ == h.processes@[p as int].vmas@
    &&& post.processes@[p as int].page_table@
        == h.processes@[p as int].page_table@.update(v as int, accessed_pte(e, is_write))
    &&& post.processes@[p as int].segprot
        == h.processes@[p as int].segprot + (if hit_prot { 1int } else { 0 })
    &&& post.processes@[p as int].unmaps == h.processes@[p as int].unmaps
    &&& post.processes@[p as int].maps == h.processes@[p as int].maps
    &&& post.processes@[p as int].ins == h.processes@[p as int].ins
    &&& post.processes@[p as int].outs == h.processes@[p as int].outs
    &&& post.processes@[p as int].fins == h.processes@[p as int].fins
    &&& post.processes@[p as int].fouts == h.processes@[p as int].fouts
    &&& post.processes@[p as int].zeros == h.processes@[p as int].zeros
    &&& post.processes@[p as int].segv == h.processes@[p as int].segv
    &&& post.frame_table@ == h.frame_table@
    &&& post.free_frames@ == h.free_frames@
    &&& post.pager == h.pager
    &&& post.current_process == h.current_process
    &&& post.ctx_switches == h.ctx_switches
    &&& post.process_exits == h.process_exits
    &&& nev == hev + if hit_prot { seq![TraceEvent::Segprot] } else { Seq::empty() }
}

/// A fault on `(p, v)` was served through some intermediate states.
pub open spec fn fault_served(
    pre: MMU,
    h: MMU,
    p: usize,
    v: usize,
    idx: int,
    oev: Seq<TraceEvent>,
    hev: Seq<TraceEvent>,
) -> bool {
    exists|mid: MMU, f: usize, mev: Seq<TraceEvent>|
        fault_ok_outcome(pre, h, mid, f, mev, p, v, idx, oev, hev)
}

/// What each instruction's arguments must satisfy (the input is well formed:
/// pids exist, pages are in range, and a context switch precedes the first
/// access).
pub open spec fn instr_arg_ok(i: Instr, m: MMU) -> bool {
    match i {
        Instr::Ctx(pid) => pid < m.np(),
        Instr::Exit(pid) => pid < m.np(),
        Instr::Read(v) => v < NUM_PAGES && m.current_process is Some,
        Instr::Write(v) => v < NUM_PAGES && m.current_process is Some,
    }
}

/// The exact effect of one instruction, by kind.
pub open spec fn step_post(
    pre: MMU,
    post: MMU,
    instr: Instr,
    idx: int,
    oev: Seq<TraceEvent>,
    nev: Seq<TraceEvent>,
) -> bool {
    match instr {
        Instr::Ctx(pid) => ctx_outcome(pre, post, pid, oev, nev),
        Instr::Exit(pid) => {
            &&& exit_outcome(pre, post, pid, oev, nev)
            &&& post.inst_count == pre.inst_count + 1
        },
        Instr::Read(v) => rw_post(pre, post, v, false, idx, oev, nev),
        Instr::Write(v) => rw_post(pre, post, v, true, idx, oev, nev),
    }
}

/// The exact effect of one read or write.
pub open spec fn rw_post(
    pre: MMU,
    post: MMU,
    v: usize,
    is_write: bool,
    idx: int,
    oev: Seq<TraceEvent>,
    nev: Seq<TraceEvent>,
) -> bool {
    let p = pre.current_process.unwrap();
    let e = pre.pte(p as int, v as int);
    &&& post.inst_count == pre.inst_count + 1
    &&& if e.present {
        access_tail(pre, post, p, v, is_write, oev, nev)
    } else if !e.is_valid_vma {
        segv_outcome(pre, post, p, oev, nev)
    } else {
        exists|h: MMU, hev: Seq<TraceEvent>| {
            &&& #[trigger] fault_served(pre, h, p, v, idx, oev, hev)
            &&& access_tail(h, post, p, v, is_write, hev, nev)
        }
    }
}

impl MMU {
    /// Retire process `pid`: clear every page's swap history, unmap its
    /// present pages, and hand their frames back in page order.
    #[verifier::rlimit(100)]
    fn do_exit(&mut self, pid: usize, events: &mut Vec<TraceEvent>)
        requires
            old(self).wf(),
            pid < old(self).np(),
        ensures
            final(self).tables_wf(),
            final(self).pager.wf(final(self).nf()),
            pager_history_ok(
                final(self).pager,
                final(self).frame_table@,
                old(self).inst_count as int,
            ),
            final(self).inst_count == old(self).inst_count,
            final(self).np() == old(self).np(),
            exit_outcome(*old(self), *final(self), pid, old(events)@, final(events)@),
    {
        events.push(TraceEvent::ExitProc { pid });
        self.process_exits = self.process_exits + 1;
        let ghost pre = *old(self);
        let ghost opt = old(self).processes@[pid as int].page_table@;
        let ghost ev0 = events@;
        proof {
            assert(ev0 =~= old(events)@ + seq![TraceEvent::ExitProc { pid }]);
        }
        let mut v: usize = 0;
        while v < NUM_PAGES
            invariant
                pre.wf(),
                pid < pre.np(),
                opt == pre.processes@[pid as int].page_table@,
                opt.len() == NUM_PAGES,
                0 <= v <= NUM_PAGES,
                self.nf() == pre.nf(),
                self.np() == pre.np(),
                self.tables_wf(),
                same_except(pre.processes@, self.processes@, pid as int),
                self.processes@[pid as int].vmas@ == pre.processes@[pid as int].vmas@,
                self.processes@[pid as int].page_table@.len() == NUM_PAGES,
                forall|w: int|
                    0 <= w < v
                        ==> (#[trigger] self.processes@[pid as int].page_table@[w]) == exit_pte(opt[w]),
                forall|w: int|
                    v <= w < NUM_PAGES
                        ==> (#[trigger] self.processes@[pid as int].page_table@[w]) == opt[w],
                self.processes@[pid as int].unmaps
                    == pre.processes@[pid as int].unmaps + count_present(opt, v as int),
                self.processes@[pid as int].fouts
                    == pre.processes@[pid as int].fouts + count_exit_fouts(opt, v as int),
                self.processes@[pid as int].maps == pre.processes@[pid as int].maps,
                self.processes@[pid as int].ins == pre.processes@[pid as int].ins,
                self.processes@[pid as int].outs == pre.processes@[pid as int].outs,
                self.processes@[pid as int].fins == pre.processes@[pid as int].fins,
                self.processes@[pid as int].zeros == pre.processes@[pid as int].zeros,
                self.processes@[pid as int].segv == pre.processes@[pid as int].segv,
                self.processes@[pid as int].segprot == pre.processes@[pid as int].segprot,
                forall|g: int|
                    0 <= g < pre.nf() ==> (#[trigger] self.frame_table@[g]) == (
                        if pre.frame_table@[g] is Some && occ(pre.frame_table@, g).pid == pid
                            && occ(pre.frame_table@, g).vpage < v {
                            None::<Frame>
                        } else {
                            pre.frame_table@[g]
                        }
                    ),
                self.free_frames@ == pre.free_frames@ + freed_frames(opt, v as int),
                events@ == ev0 + exit_events(opt, pid, v as int),
                self.pager == pre.pager,
                self.current_process == pre.current_process,
                self.ctx_switches == pre.ctx_switches,
                self.process_exits == pre.process_exits + 1,
                self.inst_count == pre.inst_count,
            decreases NUM_PAGES - v,
        {
            let ghost prev = *self;
            let e = self.processes[pid].page_table[v];
            if e.present {
                let f = match e.frame {
                    Some(f) => f,
                    None => {
                        proof {
                            assert(false);
                        }
                        0
                    },
                };
                proof {
                    assert(prev.pte(pid as int, v as int).present);
                    assert(prev.frame_table@[f as int] is Some);
                    assert(occ(prev.frame_table@, f as int).pid == pid);
                    assert(occ(prev.frame_table@, f as int).vpage == v);
                    assert(!prev.free_frames@.contains(f));
                    assert(pre.frame_table@[f as int] is Some && occ(pre.frame_table@, f as int).pid == pid);
                    assert(proc_counters_ok(pre.processes@[pid as int], pre.inst_count as int));
                    lemma_count_present_le(opt, v as int);
                }
                self.frame_table[f] = None;
                self.free_frames.push(f);
                events.push(TraceEvent::Unmap { pid, vpage: v });
                let proc = &mut self.processes[pid];
                proc.unmaps = proc.unmaps + 1;
                if e.modified && e.file_mapped {
                    events.push(TraceEvent::Fout);
                    let proc2 = &mut self.processes[pid];
                    proc2.fouts = proc2.fouts + 1;
                }
                let pte = &mut self.processes[pid].page_table[v];
                pte.present = false;
                pte.frame = None;
                pte.paged_out = false;
                proof {
                    let cur = *self;
                    assert(cur.processes@[pid as int].page_table@[v as int] == exit_pte(opt[v as int]));
                    // the structural invariant survives unmapping one page
                    assert forall|g: int|
                        0 <= g < cur.nf() && (#[trigger] cur.frame_table@[g]) is Some implies {
                        let fr = cur.frame_table@[g].unwrap();
                        &&& fr.pid < cur.np()
                        &&& fr.vpage < NUM_PAGES
                        &&& cur.pte(fr.pid as int, fr.vpage as int).present
                        &&& cur.pte(fr.pid as int, fr.vpage as int).frame == Some(g as usize)
                    } by {
                        assert(g != f);
                        assert(prev.frame_table@[g] is Some);
                        let fr = prev.frame_table@[g].unwrap();
                        assert(prev.pte(fr.pid as int, fr.vpage as int).present);
                        assert(!(fr.pid == pid && fr.vpage == v));
                    }
                    assert forall|q: int, w: int|
                        0 <= q < cur.np() && 0 <= w < NUM_PAGES
                            && (#[trigger] cur.pte(q, w)).present implies {
                        let fo = cur.pte(q, w).frame;
                        &&& fo is Some
                        &&& fo.unwrap() < cur.nf()
                        &&& cur.frame_table@[fo.unwrap() as int] is Some
                        &&& cur.frame_table@[fo.unwrap() as int].unwrap().pid == q
                        &&& cur.frame_table@[fo.unwrap() as int].unwrap().vpage == w
                    } by {
                        assert(!(q == pid && w == v as int));
                        assert(cur.pte(q, w) == prev.pte(q, w));
                        assert(prev.pte(q, w).present);
                        let fo = prev.pte(q, w).frame;
                        assert(fo.unwrap() as int != f as int);
                    }
                    assert(cur.free_wf()) by {
                        assert forall|i: int|
                            0 <= i < cur.free_frames@.len()
                            implies (#[trigger] cur.free_frames@[i]) < cur.nf()
                                && cur.frame_table@[cur.free_frames@[i] as int] is None by {
                            if i < prev.free_frames@.len() {
                                assert(prev.free_frames@[i] == cur.free_frames@[i]);
                                assert(cur.free_frames@[i] != f);
                            } else {
                                assert(cur.free_frames@[i] == f);
                            }
                        }
                        assert(cur.free_frames@.no_duplicates()) by {
                            assert forall|i: int, j: int|
                                0 <= i < cur.free_frames@.len() && 0 <= j < cur.free_frames@.len()
                                    && i != j
                                implies cur.free_frames@[i] != cur.free_frames@[j] by {
                                if i < prev.free_frames@.len() && j < prev.free_frames@.len() {
                                } else if i < prev.free_frames@.len() {
                                    assert(cur.free_frames@[j] == f);
                                    assert(prev.frame_table@[prev.free_frames@[i] as int] is None);
                                } else if j < prev.free_frames@.len() {
                                    assert(cur.free_frames@[i] == f);
                                    assert(prev.frame_table@[prev.free_frames@[j] as int] is None);
                                }
                            }
                        }
                        assert forall|g: int|
                            0 <= g < cur.nf() && (#[trigger] cur.frame_table@[g]) is None
                            implies cur.free_frames@.contains(g as usize) by {
                            if g == f {
                                assert(cur.free_frames@[cur.free_frames@.len() - 1] == f);
                            } else {
                                assert(prev.frame_table@[g] is None);
                                assert(prev.free_frames@.contains(g as usize));
                                let i = choose|i: int|
                                    0 <= i < prev.free_frames@.len() && prev.free_frames@[i] == g as usize;
                                assert(cur.free_frames@[i] == g as usize);
                            }
                        }
                    }
                    assert(count_present(opt, v + 1) == count_present(opt, v as int) + 1);
                    assert(freed_frames(opt, v + 1) =~= freed_frames(opt, v as int) + seq![f]);
                    assert(cur.free_frames@ =~= pre.free_frames@ + freed_frames(opt, v + 1));
                    assert(exit_events(opt, pid, v + 1)
                        =~= exit_events(opt, pid, v as int) + page_exit_events(opt[v as int], pid, v));
                    assert(events@ =~= ev0 + exit_events(opt, pid, v + 1));
                }
            } else {
                let pte = &mut self.processes[pid].page_table[v];
                pte.paged_out = false;
                proof {
                    let cur = *self;
                    assert(cur.processes@[pid as int].page_table@[v as int] == exit_pte(opt[v as int]));
                    lemma_tables_rel_pt_equal(cur.frame_table@, prev.processes@, cur.processes@);
                    assert(exit_events(opt, pid, v + 1) =~= exit_events(opt, pid, v as int));
                    assert(freed_frames(opt, v + 1) =~= freed_frames(opt, v as int));
                }
            }
            v = v + 1;
        }
        proof {
            crate::pagers::lemma_pager_history_clears(
                pre.pager, pre.frame_table@, self.frame_table@, pre.inst_count as int,
            );
            assert(events@ =~= old(events)@ + seq![TraceEvent::ExitProc { pid }]
                + exit_events(opt, pid, NUM_PAGES as int));
        }
    }

    /// Process one instruction, appending its trace to `events`.
    pub fn process_instruction(&mut self, idx: usize, instr: Instr, events: &mut Vec<TraceEvent>)
        requires
            old(self).wf(),
            idx == old(self).inst_count,
            idx < 0xFFFF_FFFF,
            instr_arg_ok(instr, *old(self)),
        ensures
            final(self).wf(),
            final(self).inst_count == idx + 1,
            final(self).nf() == old(self).nf(),
            final(self).np() == old(self).np(),
            step_post(*old(self), *final(self), instr, idx as int, old(events)@, final(events)@),
    {
        match instr {
            Instr::Ctx(pid) => {
                self.current_process = Some(pid);
                self.ctx_switches = self.ctx_switches + 1;
                self.inst_count = idx + 1;
                proof {
                    crate::pagers::lemma_pager_history_mono(
                        self.pager, self.frame_table@, idx as int, idx + 1,
                    );
                }
            },
            Instr::Exit(pid) => {
                self.do_exit(pid, events);
                self.inst_count = idx + 1;
                proof {
                    crate::pagers::lemma_pager_history_mono(
                        self.pager, self.frame_table@, idx as int, idx + 1,
                    );
                    lemma_count_present_le(
                        old(self).processes@[pid as int].page_table@, NUM_PAGES as int,
                    );
                    assert forall|q: int| 0 <= q < self.np()
                        implies proc_counters_ok(#[trigger] self.processes@[q], idx + 1) by {
                        assert(proc_counters_ok(old(self).processes@[q], idx as int));
                    }
                }
            },
            Instr::Read(v) => {
                self.do_access(v, false, idx, events);
            },
            Instr::Write(v) => {
                self.do_access(v, true, idx, events);
            },
        }
    }

    /// One read or write: fault the page in if needed, then set the hardware
    /// bits, refusing a write to a protected page.
    fn do_access(&mut self, v: usize, is_write: bool, idx: usize, events: &mut Vec<TraceEvent>)
        requires
            old(self).wf(),
            idx == old(self).inst_count,
            idx < 0xFFFF_FFFF,
            v < NUM_PAGES,
            old(self).current_process is Some,
        ensures
            final(self).wf(),
            final(self).inst_count == idx + 1,
            final(self).nf() == old(self).nf(),
            final(self).np() == old(self).np(),
            rw_post(*old(self), *final(self), v, is_write, idx as int, old(events)@, final(events)@),
    {
        let p = self.current_process.unwrap();
        let e0 = self.processes[p].page_table[v];
        if !e0.present {
            match self.page_fault_handler(v, idx, events) {
                Err(_) => {
                    self.inst_count = idx + 1;
                    proof {
                        lemma_tables_rel_pt_equal(
                            self.frame_table@, old(self).processes@, self.processes@,
                        );
                        crate::pagers::lemma_pager_history_mono(
                            self.pager, self.frame_table@, idx as int, idx + 1,
                        );
                    }
                    return;
                },
                Ok(_) => {},
            }
        }
        let ghost h = *self;
        let ghost hev = events@;
        proof {
            if e0.present {
                assert(h == *old(self));
            }
            assert(h.pte(p as int, v as int).present);
            assert(h.tables_shape());
        }
        let e = self.processes[p].page_table[v];
        let pte = &mut self.processes[p].page_table[v];
        pte.referenced = true;
        if is_write && !e.write_protected {
            pte.modified = true;
        }
        if is_write && e.write_protected {
            events.push(TraceEvent::Segprot);
            proof {
                if e0.present {
                    assert(proc_counters_ok(old(self).processes@[p as int], idx as int));
                } else {
                    assert(counters_ok_at(h, idx + 1));
                    assert(proc_counters_ok(h.processes@[p as int], idx + 1));
                }
            }
            let proc = &mut self.processes[p];
            proc.segprot = proc.segprot + 1;
        }
        self.inst_count = idx + 1;
        proof {
            assert(self.processes@[p as int].page_table@
                =~= h.processes@[p as int].page_table@.update(v as int, accessed_pte(e, is_write)));
            assert(access_tail(h, *self, p, v, is_write, hev, events@)) by {
                if is_write && e.write_protected {
                    assert(events@ =~= hev + seq![TraceEvent::Segprot]);
                } else {
                    assert(events@ =~= hev + Seq::<TraceEvent>::empty());
                }
            }
            lemma_tables_rel_pt_equal(self.frame_table@, h.processes@, self.processes@);
            if e0.present {
                crate::pagers::lemma_pager_history_mono(
                    self.pager, self.frame_table@, idx as int, idx + 1,
                );
                assert forall|q: int| 0 <= q < self.np()
                    implies proc_counters_ok(#[trigger] self.processes@[q], idx + 1) by {
                    assert(proc_counters_ok(old(self).processes@[q], idx as int));
                }
            } else {
                assert forall|q: int| 0 <= q < self.np()
                    implies proc_counters_ok(#[trigger] self.processes@[q], idx + 1) by {
                    assert(proc_counters_ok(h.processes@[q], idx + 1));
                }
                assert(rw_post(*old(self), *self, v, is_write, idx as int, old(events)@, events@)) by {
                    assert(fault_served(*old(self), h, p, v, idx as int, old(events)@, hev));
                }
            }
        }
    }
}

/// How many of the instructions are context switches.
pub open spec fn count_ctx(insts: Seq<Instr>) -> int
    decreases insts.len(),
{
    if insts.len() == 0 {
        0
    } else {
        count_ctx(insts.drop_last()) + if insts.last() is Ctx { 1int } else { 0 }
    }
}

/// How many of the instructions are process exits.
pub open spec fn count_exits(insts: Seq<Instr>) -> int
    decreases insts.len(),
{
    if insts.len() == 0 {
        0
    } else {
        count_exits(insts.drop_last()) + if insts.last() is Exit { 1int } else { 0 }
    }
}

/// How many of the instructions are reads or writes.
pub open spec fn count_rw(insts: Seq<Instr>) -> int
    decreases insts.len(),
{
    if insts.len() == 0 {
        0
    } else {
        count_rw(insts.drop_last()) + if insts.last() is Read || insts.last() is Write {
            1int
        } else {
            0
        }
    }
}

proof fn lemma_count_take_step(insts: Seq<Instr>, i: int)
    requires
        0 <= i < insts.len(),
    ensures
        count_ctx(insts.take(i + 1)) == count_ctx(insts.take(i)) + if insts[i] is Ctx { 1int } else { 0 },
        count_exits(insts.take(i + 1)) == count_exits(insts.take(i)) + if insts[i] is Exit { 1int } else { 0 },
{
    assert(insts.take(i + 1).drop_last() =~= insts.take(i));
    assert(insts.take(i + 1).last() == insts[i]);
}

/// A well-formed instruction load: every pid exists, every page is in range,
/// and a context switch comes before the first access.
pub open spec fn insts_wf(insts: Seq<Instr>, np: int) -> bool {
    forall|i: int|
        0 <= i < insts.len() ==> match #[trigger] insts[i] {
            Instr::Ctx(p) => p < np,
            Instr::Exit(p) => p < np,
            Instr::Read(v) => v < NUM_PAGES && exists|j: int| 0 <= j < i && insts[j] is Ctx,
            Instr::Write(v) => v < NUM_PAGES && exists|j: int| 0 <= j < i && insts[j] is Ctx,
        }
}

/// Is a well-formed instruction load acceptable to `MMU::run`?
pub fn check_instructions(insts: &Vec<Instr>, num_processes: usize) -> (r: bool)
    ensures
        r == (insts_wf(insts@, num_processes as int) && insts@.len() < 0xFFFF_FFFF),
{
    if insts.len() >= 0xFFFF_FFFF {
        return false;
    }
    let mut seen_ctx = false;
    let mut i: usize = 0;
    while i < insts.len()
        invariant
            0 <= i <= insts@.len(),
            seen_ctx == exists|j: int| 0 <= j < i && insts@[j] is Ctx,
            forall|k: int|
                0 <= k < i ==> match #[trigger] insts@[k] {
                    Instr::Ctx(p) => p < num_processes,
                    Instr::Exit(p) => p < num_processes,
                    Instr::Read(v) => v < NUM_PAGES && exists|j: int| 0 <= j < k && insts@[j] is Ctx,
                    Instr::Write(v) => v < NUM_PAGES && exists|j: int| 0 <= j < k && insts@[j] is Ctx,
                },
        decreases insts@.len() - i,
    {
        let ok = match insts[i] {
            Instr::Ctx(p) => p < num_processes,
            Instr::Exit(p) => p < num_processes,
            Instr::Read(v) => v < NUM_PAGES && seen_ctx,
            Instr::Write(v) => v < NUM_PAGES && seen_ctx,
        };
        if !ok {
            return false;
        }
        if match insts[i] {
            Instr::Ctx(_) => true,
            _ => false,
        } {
            seen_ctx = true;
            proof {
                assert(insts@[i as int] is Ctx);
            }
        }
        i = i + 1;
    }
    true
}

/// The weighted cost of one process's counters.
pub open spec fn proc_cost(p: Process) -> int {
    p.unmaps * 410 + p.maps * 350 + p.ins * 3200 + p.outs * 2750 + p.fins * 2350
        + p.fouts * 2800 + p.zeros * 150 + p.segv * 440 + p.segprot * 410
}

/// The weighted cost of the first `upto` processes.
pub open spec fn procs_cost(s: Seq<Process>, upto: int) -> int
    decreases upto,
{
    if upto <= 0 {
        0
    } else {
        procs_cost(s, upto - 1) + proc_cost(s[upto - 1])
    }
}

/// The total weighted cost of a finished simulation: all process costs, plus
/// the per-instruction charges for switches, exits, and plain accesses.
pub open spec fn total_cost_spec(m: MMU) -> int {
    procs_cost(m.processes@, m.np()) + m.ctx_switches * 130 + m.process_exits * 1230
        + (m.inst_count - m.ctx_switches - m.process_exits)
}

/// What one page contributes to the final page-table report.
#[derive(Clone, Copy, PartialEq, Eq, Debug)]
pub enum PageToken {
    SwappedOut,
    Absent,
    Mapped { referenced: bool, modified: bool, paged_out: bool },
}

/// The report token of a page: `#` for a page sitting only on swap, `*` for
/// one that is absent or outside every area, and the flag triple otherwise.
pub open spec fn page_token_spec(e: PTE) -> PageToken {
    if e.paged_out && !e.present && !e.file_mapped {
        PageToken::SwappedOut
    } else if !e.is_valid_vma || !e.present {
        PageToken::Absent
    } else {
        PageToken::Mapped { referenced: e.referenced, modified: e.modified, paged_out: e.paged_out }
    }
}

/// Classify one page for the final page-table report.
pub fn page_token(e: &PTE) -> (t: PageToken)
    ensures
        t == page_token_spec(*e),
{
    if e.paged_out && !e.present && !e.file_mapped {
        PageToken::SwappedOut
    } else if !e.is_valid_vma || !e.present {
        PageToken::Absent
    } else {
        PageToken::Mapped { referenced: e.referenced, modified: e.modified, paged_out: e.paged_out }
    }
}

impl MMU {
    /// Run a whole instruction load, returning each instruction's trace.
    pub fn run(&mut self, insts: &Vec<Instr>) -> (traces: Vec<Vec<TraceEvent>>)
        requires
            old(self).wf(),
            old(self).inst_count == 0,
            old(self).current_process is None,
            insts@.len() < 0xFFFF_FFFF,
            insts_wf(insts@, old(self).np()),
        ensures
            final(self).wf(),
            final(self).inst_count == insts@.len(),
            final(self).np() == old(self).np(),
            final(self).nf() == old(self).nf(),
            final(self).ctx_switches == count_ctx(insts@),
            final(self).process_exits == count_exits(insts@),
            traces@.len() == insts@.len(),
    {
        let mut traces: Vec<Vec<TraceEvent>> = Vec::new();
        let n = insts.len();
        let mut i: usize = 0;
        while i < n
            invariant
                self.wf(),
                self.inst_count == i,
                0 <= i <= n,
                n == insts@.len(),
                n < 0xFFFF_FFFF,
                insts_wf(insts@, self.np()),
                self.np() == old(self).np(),
                self.nf() == old(self).nf(),
                self.ctx_switches == count_ctx(insts@.take(i as int)),
                self.process_exits == count_exits(insts@.take(i as int)),
                traces@.len() == i,
                self.current_process is Some || (forall|j: int| 0 <= j < i ==> !((#[trigger] insts@[j]) is Ctx)),
            decreases n - i,
        {
            let instr = insts[i];
            proof {
                assert(instr_arg_ok(instr, *self)) by {
                    match instr {
                        Instr::Read(_) | Instr::Write(_) => {
                            let j = choose|j: int| 0 <= j < i && insts@[j] is Ctx;
                            assert(self.current_process is Some);
                        },
                        _ => {},
                    }
                }
            }
            let mut ev: Vec<TraceEvent> = Vec::new();
            self.process_instruction(i, instr, &mut ev);
            traces.push(ev);
            proof {
                lemma_count_take_step(insts@, i as int);
            }
            i = i + 1;
        }
        proof {
            assert(insts@.take(n as int) =~= insts@);
        }
        traces
    }

    /// The total weighted cost of the simulation so far.
    pub fn total_cost(&self) -> (c: u128)
        requires
            self.wf(),
        ensures
            c == total_cost_spec(*self),
    {
        let mut cost: u128 = 0;
        let n = self.processes.len();
        let mut i: usize = 0;
        while i < n
            invariant
                self.wf(),
                0 <= i <= n,
                n == self.np(),
                cost == procs_cost(self.processes@, i as int),
                cost <= i * 0x400_0000_0000_0000u128,
            decreases n - i,
        {
            let p = &self.processes[i];
            proof {
                assert(proc_counters_ok(self.processes@[i as int], self.inst_count as int));
            }
            let pc: u128 = (p.unmaps as u128) * 410 + (p.maps as u128) * 350
                + (p.ins as u128) * 3200 + (p.outs as u128) * 2750 + (p.fins as u128) * 2350
                + (p.fouts as u128) * 2800 + (p.zeros as u128) * 150 + (p.segv as u128) * 440
                + (p.segprot as u128) * 410;
            cost = cost + pc;
            i = i + 1;
        }
        cost = cost + (self.ctx_switches as u128) * 130 + (self.process_exits as u128) * 1230;
        let plain = self.inst_count as u64 - (self.ctx_switches + self.process_exits);
        cost = cost + plain as u128;
        cost
    }
}

} // verus!
