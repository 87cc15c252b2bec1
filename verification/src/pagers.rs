//! Frame-replacement policies for the MMU simulator.
//!
//! A policy chooses a victim frame when the free-frame pool is empty.  In the
//! course of a search a policy may clear `referenced` bits and rewrite frame
//! ages, but it never changes which page sits in which frame.

use vstd::prelude::*;
use crate::mmu::{Frame, Process, PTE, NUM_PAGES};

verus! {

/// The working-set window: a frame unused for this many instructions is
/// reclaimed at once.
pub const TAU: usize = 50;

/// The not-recently-used policy clears every referenced bit each time this
/// many instructions have elapsed since the previous reset.
pub const NRU_RESET_PERIOD: usize = 50;

/// The occupant of frame `f` (meaningful when every scanned frame is occupied).
pub open spec fn occ(ft: Seq<Option<Frame>>, f: int) -> Frame {
    ft[f].unwrap()
}

/// The page table entry that frame `f`'s occupant maps.
pub open spec fn pte_at(ft: Seq<Option<Frame>>, procs: Seq<Process>, f: int) -> PTE {
    procs[occ(ft, f).pid as int].page_table@[occ(ft, f).vpage as int]
}

/// The referenced bit of the page mapped at frame `f`.
pub open spec fn ref_at(ft: Seq<Option<Frame>>, procs: Seq<Process>, f: int) -> bool {
    pte_at(ft, procs, f).referenced
}

/// Every frame holds a page.
pub open spec fn frames_all_occupied(ft: Seq<Option<Frame>>) -> bool {
    forall|f: int| 0 <= f < ft.len() ==> ft[f] is Some
}

/// Every occupant names a process and page that exist.
pub open spec fn frames_index_procs(ft: Seq<Option<Frame>>, procs: Seq<Process>) -> bool {
    forall|f: int| 0 <= f < ft.len() && ft[f] is Some ==> {
        &&& #[trigger] occ(ft, f).pid < procs.len()
        &&& occ(ft, f).vpage < NUM_PAGES
        &&& procs[occ(ft, f).pid as int].page_table@.len() == NUM_PAGES
    }
}

/// The same pages sit in the same frames; only ages may differ.
pub open spec fn same_occupancy(o: Seq<Option<Frame>>, n: Seq<Option<Frame>>) -> bool {
    &&& n.len() == o.len()
    &&& forall|f: int| 0 <= f < o.len() ==> {
        &&& (o[f] is Some <==> #[trigger] n[f] is Some)
        &&& (o[f] is Some ==> occ(n, f).pid == occ(o, f).pid && occ(n, f).vpage == occ(o, f).vpage)
    }
}

/// `n` is `o` with the referenced bit replaced.
pub open spec fn pte_with_ref(o: PTE, referenced: bool) -> PTE {
    PTE { referenced, ..o }
}

/// At most the referenced bit changed, and only from set to clear.
pub open spec fn pte_only_ref_cleared(o: PTE, n: PTE) -> bool {
    &&& n == pte_with_ref(o, n.referenced)
    &&& (n.referenced ==> o.referenced)
}

/// `n` is `o` with some referenced bits cleared; areas, counters, and every
/// other page-table field are untouched.
pub open spec fn proc_only_ref_cleared(o: Process, n: Process) -> bool {
    &&& n.vmas@ == o.vmas@
    &&& n.unmaps == o.unmaps && n.maps == o.maps && n.ins == o.ins && n.outs == o.outs
    &&& n.fins == o.fins && n.fouts == o.fouts && n.zeros == o.zeros
    &&& n.segv == o.segv && n.segprot == o.segprot
    &&& n.page_table@.len() == o.page_table@.len()
    &&& forall|v: int| 0 <= v < o.page_table@.len()
        ==> pte_only_ref_cleared(o.page_table@[v], #[trigger] n.page_table@[v])
}

pub open spec fn procs_only_ref_cleared(o: Seq<Process>, n: Seq<Process>) -> bool {
    &&& n.len() == o.len()
    &&& forall|p: int| 0 <= p < o.len() ==> proc_only_ref_cleared(o[p], #[trigger] n[p])
}

/// No two frames hold the same page.
pub open spec fn frames_distinct(ft: Seq<Option<Frame>>) -> bool {
    forall|f1: int, f2: int|
        0 <= f1 < ft.len() && 0 <= f2 < ft.len() && f1 != f2 && (#[trigger] ft[f1]) is Some
            && (#[trigger] ft[f2]) is Some
            ==> !(occ(ft, f1).pid == occ(ft, f2).pid && occ(ft, f1).vpage == occ(ft, f2).vpage)
}

/// The frame reached `k` steps after `hand` when walking a table of `nf`
/// frames circularly (meaningful for `0 <= hand < nf` and `0 <= k < nf`).
pub open spec fn wrap_index(hand: int, k: int, nf: int) -> int {
    if hand + k < nf {
        hand + k
    } else {
        hand + k - nf
    }
}

/// Page `(q, w)` sits in the frame visited at scan step `k` from `hand`.
pub open spec fn occ_at(ft: Seq<Option<Frame>>, hand: int, k: int, q: int, w: int) -> bool {
    let f = wrap_index(hand, k, ft.len() as int);
    &&& ft[f] is Some
    &&& occ(ft, f).pid == q
    &&& occ(ft, f).vpage == w
}

/// Page `(q, w)` sits in one of the first `j` frames scanned from `hand`.
pub open spec fn scanned_before(ft: Seq<Option<Frame>>, hand: int, j: int, q: int, w: int) -> bool {
    exists|k: int| 0 <= k < j && #[trigger] occ_at(ft, hand, k, q, w)
}

/// Areas, counters and table sizes agree.
pub open spec fn proc_meta_eq(o: Process, n: Process) -> bool {
    &&& n.vmas@ == o.vmas@
    &&& n.unmaps == o.unmaps && n.maps == o.maps && n.ins == o.ins && n.outs == o.outs
    &&& n.fins == o.fins && n.fouts == o.fouts && n.zeros == o.zeros
    &&& n.segv == o.segv && n.segprot == o.segprot
    &&& n.page_table@.len() == o.page_table@.len()
}

/// `np` is `op` with the referenced bit cleared on exactly the pages sitting
/// in the first `j` frames scanned from `hand`.
pub open spec fn refs_cleared_scanned(
    ft: Seq<Option<Frame>>,
    op: Seq<Process>,
    np: Seq<Process>,
    hand: int,
    j: int,
) -> bool {
    &&& np.len() == op.len()
    &&& forall|q: int| 0 <= q < op.len() ==> proc_meta_eq(op[q], #[trigger] np[q])
    &&& forall|q: int, w: int|
        0 <= q < op.len() && 0 <= w < op[q].page_table@.len()
            ==> (#[trigger] np[q].page_table@[w]) == (if scanned_before(ft, hand, j, q, w) {
                pte_with_ref(op[q].page_table@[w], false)
            } else {
                op[q].page_table@[w]
            })
}

/// Round-robin replacement: a moving hand over the frame table.
pub struct FIFO {
    pub hand: usize,
    pub num_frames: usize,
}

impl FIFO {
    pub fn new(num_frames: usize) -> (p: FIFO)
        ensures
            p.hand == 0,
            p.num_frames == num_frames,
    {
        FIFO { hand: 0, num_frames }
    }

    pub open spec fn wf(self, nf: int) -> bool {
        &&& self.num_frames == nf
        &&& self.hand < nf
    }

    /// Return the hand and advance it one frame.
    pub fn select_victim_frame(&mut self, _instr_idx: usize) -> (r: usize)
        requires
            old(self).num_frames >= 1,
            old(self).hand < old(self).num_frames,
        ensures
            fifo_post(*old(self), *final(self), r),
    {
        let frame = self.hand;
        self.hand = (self.hand + 1) % self.num_frames;
        frame
    }
}

pub open spec fn fifo_post(o: FIFO, n: FIFO, r: usize) -> bool {
    &&& r == o.hand
    &&& n.num_frames == o.num_frames
    &&& n.hand == (o.hand + 1) as int % o.num_frames as int
}

/// Replacement driven by an injected stream of numbers, consumed in order
/// and wrapping at its end.
pub struct Random {
    pub hand: usize,
    pub num_frames: usize,
    pub random_numbers: Vec<usize>,
}

impl Random {
    pub fn new(num_frames: usize, random_numbers: Vec<usize>) -> (p: Random)
        ensures
            p.hand == 0,
            p.num_frames == num_frames,
            p.random_numbers@ == random_numbers@,
    {
        Random { hand: 0, num_frames, random_numbers }
    }

    pub open spec fn wf(self, nf: int) -> bool {
        &&& self.num_frames == nf
        &&& self.random_numbers@.len() >= 1
        &&& self.hand < self.random_numbers@.len()
    }

    /// Take the next number of the stream, reduced modulo the frame count.
    pub fn select_victim_frame(&mut self, _instr_idx: usize) -> (r: usize)
        requires
            old(self).num_frames >= 1,
            old(self).random_numbers@.len() >= 1,
            old(self).hand < old(self).random_numbers@.len(),
        ensures
            rand_post(*old(self), *final(self), r),
    {
        let len = self.random_numbers.len();
        let frame = self.random_numbers[self.hand] % self.num_frames;
        self.hand = (self.hand + 1) % len;
        frame
    }
}

pub open spec fn rand_post(o: Random, n: Random, r: usize) -> bool {
    &&& r == o.random_numbers@[o.hand as int] as int % o.num_frames as int
    &&& n.num_frames == o.num_frames
    &&& n.random_numbers@ == o.random_numbers@
    &&& n.hand == (o.hand + 1) as int % o.random_numbers@.len() as int
}

/// Enhanced second chance: sweep from the hand, give each referenced page a
/// second chance by clearing its bit, and take the first unreferenced page.
pub struct Clock {
    pub hand: usize,
    pub num_frames: usize,
}

/// The victim and the cleared bits of one clock sweep: some `j` scan steps
/// saw only referenced pages and had their bits cleared; the frame at step
/// `j` held an unreferenced page and becomes the victim, or — every page
/// being referenced — the sweep wraps to the hand itself.
pub open spec fn clock_post(
    o: Clock,
    n: Clock,
    ft: Seq<Option<Frame>>,
    op: Seq<Process>,
    np: Seq<Process>,
    r: usize,
) -> bool {
    let nf = o.num_frames as int;
    let hand = o.hand as int;
    &&& n.num_frames == o.num_frames
    &&& n.hand == wrap_index(r as int, 1, nf)
    &&& exists|j: int| {
        &&& 0 <= j <= nf
        &&& r == wrap_index(hand, if j == nf { 0int } else { j }, nf)
        &&& (forall|k: int| 0 <= k < j ==> ref_at(ft, op, wrap_index(hand, k, nf)))
        &&& (j < nf ==> !ref_at(ft, op, wrap_index(hand, j, nf)))
        &&& #[trigger] refs_cleared_scanned(ft, op, np, hand, j)
    }
}

impl Clock {
    pub fn new(num_frames: usize) -> (p: Clock)
        ensures
            p.hand == 0,
            p.num_frames == num_frames,
    {
        Clock { hand: 0, num_frames }
    }

    pub open spec fn wf(self, nf: int) -> bool {
        &&& self.num_frames == nf
        &&& self.hand < nf
    }

    /// Sweep from the hand for the first unreferenced page, withdrawing
    /// second chances on the way.
    pub fn select_victim_frame(
        &mut self,
        frame_table: &mut Vec<Option<Frame>>,
        processes: &mut Vec<Process>,
    ) -> (r: usize)
        requires
            old(self).num_frames >= 1,
            old(self).hand < old(self).num_frames,
            old(frame_table)@.len() == old(self).num_frames,
            frames_all_occupied(old(frame_table)@),
            frames_index_procs(old(frame_table)@, old(processes)@),
            frames_distinct(old(frame_table)@),
        ensures
            r < old(self).num_frames,
            final(frame_table)@ == old(frame_table)@,
            procs_only_ref_cleared(old(processes)@, final(processes)@),
            clock_post(*old(self), *final(self), old(frame_table)@, old(processes)@, final(processes)@, r),
    {
        let nf = self.num_frames;
        let hand = self.hand;
        let ghost oft = frame_table@;
        let ghost op = processes@;
        let mut off: usize = 0;
        let mut fcur: usize = hand;
        while off < nf
            invariant
                nf == self.num_frames,
                hand == self.hand,
                old(self).hand == hand,
                old(self).num_frames == nf,
                nf >= 1,
                hand < nf,
                0 <= off <= nf,
                fcur == wrap_index(hand as int, off as int, nf as int),
                oft == frame_table@,
                op == old(processes)@,
                oft.len() == nf,
                frames_all_occupied(oft),
                frames_index_procs(oft, op),
                frames_distinct(oft),
                forall|k: int| 0 <= k < off ==> ref_at(oft, op, wrap_index(hand as int, k, nf as int)),
                refs_cleared_scanned(oft, op, processes@, hand as int, off as int),
                procs_only_ref_cleared(op, processes@),
            decreases nf - off,
        {
            let fr = frame_table[fcur].unwrap();
            let pid = fr.pid;
            let vp = fr.vpage;
            proof {
                assert(occ(oft, fcur as int).pid == pid && occ(oft, fcur as int).vpage == vp);
                assert(pid < processes@.len() && vp < NUM_PAGES);
                assert(proc_meta_eq(op[pid as int], processes@[pid as int]));
            }
            let is_ref = processes[pid].page_table[vp].referenced;
            proof {
                // this frame was not scanned yet, so the bit is the original one
                assert(!scanned_before(oft, hand as int, off as int, pid as int, vp as int)) by {
                    if scanned_before(oft, hand as int, off as int, pid as int, vp as int) {
                        let k = choose|k: int|
                            0 <= k < off && occ_at(oft, hand as int, k, pid as int, vp as int);
                        assert(wrap_index(hand as int, k, nf as int) != fcur as int);
                        assert(false);
                    }
                }
                assert(processes@[pid as int].page_table@[vp as int] == op[pid as int].page_table@[vp as int]);
            }
            if !is_ref {
                self.hand = if fcur + 1 == nf { 0 } else { fcur + 1 };
                proof {
                    assert(!ref_at(oft, op, wrap_index(hand as int, off as int, nf as int)));
                    assert(clock_post(*old(self), *self, oft, op, processes@, fcur)) by {
                        let j = off as int;
                        assert(refs_cleared_scanned(oft, op, processes@, hand as int, j));
                        assert(fcur as int == wrap_index(hand as int, j, nf as int));
                    }
                }
                return fcur;
            }
            let ghost before = processes@;
            let pte = &mut processes[pid].page_table[vp];
            pte.referenced = false;
            proof {
                assert(ref_at(oft, op, wrap_index(hand as int, off as int, nf as int)));
                assert(processes@[pid as int].page_table@
                    =~= before[pid as int].page_table@.update(vp as int, pte_with_ref(op[pid as int].page_table@[vp as int], false)));
                assert(occ_at(oft, hand as int, off as int, pid as int, vp as int));
                assert forall|q: int, w: int|
                    0 <= q < op.len() && 0 <= w < op[q].page_table@.len()
                    implies (#[trigger] processes@[q].page_table@[w]) == (
                        if scanned_before(oft, hand as int, off + 1, q, w) {
                            pte_with_ref(op[q].page_table@[w], false)
                        } else {
                            op[q].page_table@[w]
                        }
                    ) by {
                    if q == pid as int && w == vp as int {
                        assert(scanned_before(oft, hand as int, off + 1, q, w));
                    } else {
                        assert(processes@[q].page_table@[w] == before[q].page_table@[w]);
                        if scanned_before(oft, hand as int, off + 1, q, w) {
                            let k = choose|k: int|
                                0 <= k < off + 1 && occ_at(oft, hand as int, k, q, w);
                            assert(k < off);
                            assert(scanned_before(oft, hand as int, off as int, q, w));
                        } else {
                            if scanned_before(oft, hand as int, off as int, q, w) {
                                let k = choose|k: int|
                                    0 <= k < off && occ_at(oft, hand as int, k, q, w);
                                assert(occ_at(oft, hand as int, k, q, w));
                                assert(false);
                            }
                        }
                    }
                }
            }
            off = off + 1;
            fcur = if fcur + 1 == nf { 0 } else { fcur + 1 };
        }
        // every page was referenced: the sweep cleared them all and wrapped
        self.hand = if hand + 1 == nf { 0 } else { hand + 1 };
        proof {
            assert(clock_post(*old(self), *self, oft, op, processes@, hand)) by {
                let j = nf as int;
                assert(hand as int == wrap_index(hand as int, 0, nf as int));
                assert(refs_cleared_scanned(oft, op, processes@, hand as int, j));
            }
        }
        hand
    }
}

/// Aging replacement: 32-bit ages shifted right each search, with the
/// referenced bit OR-ed into the top; the smallest age loses.
pub struct Aging {
    pub hand: usize,
    pub num_frames: usize,
}

/// Frame `f`'s age after one aging step.
pub open spec fn aged(ft: Seq<Option<Frame>>, op: Seq<Process>, f: int) -> u32 {
    (occ(ft, f).age >> 1u32) | (if ref_at(ft, op, f) { 0x8000_0000u32 } else { 0u32 })
}

/// One aging sweep: every frame's age decays (picking up the referenced
/// bit), every mapped page loses its referenced bit, and the victim is the
/// first frame from the hand with the smallest new age.
pub open spec fn aging_post(
    o: Aging,
    n: Aging,
    oft: Seq<Option<Frame>>,
    nft: Seq<Option<Frame>>,
    op: Seq<Process>,
    np: Seq<Process>,
    r: usize,
) -> bool {
    let nf = o.num_frames as int;
    let hand = o.hand as int;
    &&& n.num_frames == o.num_frames
    &&& n.hand == wrap_index(r as int, 1, nf)
    &&& nft.len() == oft.len()
    &&& forall|f: int|
        0 <= f < nf ==> (#[trigger] nft[f]) == Some(Frame { age: aged(oft, op, f), ..occ(oft, f) })
    &&& refs_cleared_scanned(oft, op, np, hand, nf)
    &&& exists|j: int| #![trigger wrap_index(hand, j, nf)] {
        &&& 0 <= j < nf
        &&& r == wrap_index(hand, j, nf)
        &&& forall|k: int|
            0 <= k < nf ==> aged(oft, op, wrap_index(hand, k, nf)) >= aged(oft, op, wrap_index(hand, j, nf))
        &&& forall|k: int|
            0 <= k < j ==> aged(oft, op, wrap_index(hand, k, nf)) > aged(oft, op, wrap_index(hand, j, nf))
    }
}

impl Aging {
    pub fn new(num_frames: usize) -> (p: Aging)
        ensures
            p.hand == 0,
            p.num_frames == num_frames,
    {
        Aging { hand: 0, num_frames }
    }

    pub open spec fn wf(self, nf: int) -> bool {
        &&& self.num_frames == nf
        &&& self.hand < nf
    }

    /// Age every frame, clear every referenced bit, and take the first
    /// smallest-aged frame from the hand.
    pub fn select_victim_frame(
        &mut self,
        frame_table: &mut Vec<Option<Frame>>,
        processes: &mut Vec<Process>,
    ) -> (r: usize)
        requires
            old(self).num_frames >= 1,
            old(self).hand < old(self).num_frames,
            old(frame_table)@.len() == old(self).num_frames,
            frames_all_occupied(old(frame_table)@),
            frames_index_procs(old(frame_table)@, old(processes)@),
            frames_distinct(old(frame_table)@),
        ensures
            r < old(self).num_frames,
            same_occupancy(old(frame_table)@, final(frame_table)@),
            procs_only_ref_cleared(old(processes)@, final(processes)@),
            aging_post(*old(self), *final(self), old(frame_table)@, final(frame_table)@, old(processes)@, final(processes)@, r),
    {
        let nf = self.num_frames;
        let hand = self.hand;
        let ghost oft = frame_table@;
        let ghost op = processes@;
        let mut off: usize = 0;
        let mut fcur: usize = hand;
        let mut best_age: u32 = 0;
        let mut best_frame: usize = hand;
        let ghost mut best_off: int = 0;
        while off < nf
            invariant
                nf == self.num_frames,
                hand == self.hand,
                old(self).hand == hand,
                old(self).num_frames == nf,
                nf >= 1,
                hand < nf,
                0 <= off <= nf,
                fcur == wrap_index(hand as int, off as int, nf as int),
                oft == old(frame_table)@,
                op == old(processes)@,
                oft.len() == nf,
                frame_table@.len() == nf,
                frames_all_occupied(oft),
                frames_index_procs(oft, op),
                frames_distinct(oft),
                forall|k: int|
                    0 <= k < off ==> (#[trigger] frame_table@[wrap_index(hand as int, k, nf as int)])
                        == Some(Frame {
                            age: aged(oft, op, wrap_index(hand as int, k, nf as int)),
                            ..occ(oft, wrap_index(hand as int, k, nf as int))
                        }),
                forall|k: int|
                    off <= k < nf ==> (#[trigger] frame_table@[wrap_index(hand as int, k, nf as int)])
                        == oft[wrap_index(hand as int, k, nf as int)],
                refs_cleared_scanned(oft, op, processes@, hand as int, off as int),
                procs_only_ref_cleared(op, processes@),
                off > 0 ==> {
                    &&& 0 <= best_off < off
                    &&& best_frame == wrap_index(hand as int, best_off, nf as int)
                    &&& best_age == aged(oft, op, best_frame as int)
                    &&& forall|k: int|
                        0 <= k < off ==> aged(oft, op, wrap_index(hand as int, k, nf as int)) >= best_age
                    &&& forall|k: int|
                        0 <= k < best_off ==> aged(oft, op, wrap_index(hand as int, k, nf as int)) > best_age
                },
            decreases nf - off,
        {
            proof {
                assert(frame_table@[wrap_index(hand as int, off as int, nf as int)]
                    == oft[fcur as int]);
            }
            let fr = frame_table[fcur].unwrap();
            let pid = fr.pid;
            let vp = fr.vpage;
            proof {
                assert(occ(oft, fcur as int).pid == pid && occ(oft, fcur as int).vpage == vp);
                assert(pid < processes@.len() && vp < NUM_PAGES);
                assert(proc_meta_eq(op[pid as int], processes@[pid as int]));
                assert(!scanned_before(oft, hand as int, off as int, pid as int, vp as int)) by {
                    if scanned_before(oft, hand as int, off as int, pid as int, vp as int) {
                        let k = choose|k: int|
                            0 <= k < off && occ_at(oft, hand as int, k, pid as int, vp as int);
                        assert(wrap_index(hand as int, k, nf as int) != fcur as int);
                        assert(false);
                    }
                }
                assert(processes@[pid as int].page_table@[vp as int]
                    == op[pid as int].page_table@[vp as int]);
            }
            let is_ref = processes[pid].page_table[vp].referenced;
            let na: u32 = (fr.age >> 1u32) | (if is_ref { 0x8000_0000u32 } else { 0u32 });
            proof {
                assert(na == aged(oft, op, fcur as int));
            }
            frame_table[fcur] = Some(Frame { pid, vpage: vp, age: na });
            let ghost before = processes@;
            let pte = &mut processes[pid].page_table[vp];
            pte.referenced = false;
            proof {
                assert(occ_at(oft, hand as int, off as int, pid as int, vp as int));
                assert forall|q: int, w: int|
                    0 <= q < op.len() && 0 <= w < op[q].page_table@.len()
                    implies (#[trigger] processes@[q].page_table@[w]) == (
                        if scanned_before(oft, hand as int, off + 1, q, w) {
                            pte_with_ref(op[q].page_table@[w], false)
                        } else {
                            op[q].page_table@[w]
                        }
                    ) by {
                    if q == pid as int && w == vp as int {
                        assert(scanned_before(oft, hand as int, off + 1, q, w));
                    } else {
                        assert(processes@[q].page_table@[w] == before[q].page_table@[w]);
                        if scanned_before(oft, hand as int, off + 1, q, w) {
                            let k = choose|k: int|
                                0 <= k < off + 1 && occ_at(oft, hand as int, k, q, w);
                            assert(k < off);
                            assert(scanned_before(oft, hand as int, off as int, q, w));
                        } else {
                            if scanned_before(oft, hand as int, off as int, q, w) {
                                let k = choose|k: int|
                                    0 <= k < off && occ_at(oft, hand as int, k, q, w);
                                assert(occ_at(oft, hand as int, k, q, w));
                                assert(false);
                            }
                        }
                    }
                }
                assert forall|k: int|
                    0 <= k < off + 1
                    implies (#[trigger] frame_table@[wrap_index(hand as int, k, nf as int)])
                        == Some(Frame {
                            age: aged(oft, op, wrap_index(hand as int, k, nf as int)),
                            ..occ(oft, wrap_index(hand as int, k, nf as int))
                        }) by {
                    if k < off {
                        assert(wrap_index(hand as int, k, nf as int) != fcur as int);
                    }
                }
            }
            if off == 0 || na < best_age {
                best_age = na;
                best_frame = fcur;
                proof {
                    best_off = off as int;
                }
            }
            off = off + 1;
            fcur = if fcur + 1 == nf { 0 } else { fcur + 1 };
        }
        self.hand = if best_frame + 1 == nf { 0 } else { best_frame + 1 };
        proof {
            assert(aging_post(*old(self), *self, oft, frame_table@, op, processes@, best_frame)) by {
                assert forall|f: int| 0 <= f < nf
                    implies (#[trigger] frame_table@[f])
                        == Some(Frame { age: aged(oft, op, f), ..occ(oft, f) }) by {
                    let k: int = if f >= hand { f - hand } else { f - hand + nf };
                    assert(wrap_index(hand as int, k, nf as int) == f);
                }
                assert(best_frame as int == wrap_index(hand as int, best_off, nf as int));
            }
        }
        best_frame
    }
}

/// Not-recently-used replacement: pages fall in four classes by their
/// referenced and modified bits; the first frame of the lowest class loses.
/// Every `NRU_RESET_PERIOD` instructions the sweep also clears all
/// referenced bits.
pub struct NRU {
    pub hand: usize,
    pub num_frames: usize,
    pub instr_ckpt: usize,
}

/// The class of the page mapped at frame `f`.
pub open spec fn class_at(ft: Seq<Option<Frame>>, op: Seq<Process>, f: int) -> int {
    (if ref_at(ft, op, f) { 2int } else { 0 }) + (if pte_at(ft, op, f).modified { 1int } else { 0 })
}

/// One NRU search: the victim is the first frame from the hand whose page's
/// class is smallest; on a periodic reset every referenced bit is cleared
/// and the checkpoint moves past the current instruction.
pub open spec fn nru_post(
    o: NRU,
    n: NRU,
    ft: Seq<Option<Frame>>,
    op: Seq<Process>,
    np: Seq<Process>,
    idx: int,
    r: usize,
) -> bool {
    let nf = o.num_frames as int;
    let hand = o.hand as int;
    let reset = idx - o.instr_ckpt >= NRU_RESET_PERIOD - 1;
    &&& n.num_frames == o.num_frames
    &&& n.hand == wrap_index(r as int, 1, nf)
    &&& n.instr_ckpt == if reset { idx + 1 } else { o.instr_ckpt as int }
    &&& refs_cleared_scanned(ft, op, np, hand, if reset { nf } else { 0 })
    &&& exists|j: int| #![trigger wrap_index(hand, j, nf)] {
        &&& 0 <= j < nf
        &&& r == wrap_index(hand, j, nf)
        &&& forall|k: int|
            0 <= k < nf ==> class_at(ft, op, wrap_index(hand, k, nf)) >= class_at(ft, op, wrap_index(hand, j, nf))
        &&& forall|k: int|
            0 <= k < j ==> class_at(ft, op, wrap_index(hand, k, nf)) > class_at(ft, op, wrap_index(hand, j, nf))
    }
}

impl NRU {
    pub fn new(num_frames: usize) -> (p: NRU)
        ensures
            p.hand == 0,
            p.num_frames == num_frames,
            p.instr_ckpt == 0,
    {
        NRU { hand: 0, num_frames, instr_ckpt: 0 }
    }

    pub open spec fn wf(self, nf: int) -> bool {
        &&& self.num_frames == nf
        &&& self.hand < nf
    }

    /// Classify every page and take the first frame of the lowest class,
    /// clearing the referenced bits when the reset period has elapsed.
    pub fn select_victim_frame(
        &mut self,
        frame_table: &mut Vec<Option<Frame>>,
        processes: &mut Vec<Process>,
        instr_idx: usize,
    ) -> (r: usize)
        requires
            old(self).num_frames >= 1,
            old(self).hand < old(self).num_frames,
            old(self).instr_ckpt <= instr_idx,
            instr_idx < 0xFFFF_FFFFusize,
            old(frame_table)@.len() == old(self).num_frames,
            frames_all_occupied(old(frame_table)@),
            frames_index_procs(old(frame_table)@, old(processes)@),
            frames_distinct(old(frame_table)@),
        ensures
            r < old(self).num_frames,
            final(frame_table)@ == old(frame_table)@,
            procs_only_ref_cleared(old(processes)@, final(processes)@),
            nru_post(*old(self), *final(self), old(frame_table)@, old(processes)@, final(processes)@, instr_idx as int, r),
    {
        let nf = self.num_frames;
        let hand = self.hand;
        let ghost oft = frame_table@;
        let ghost op = processes@;
        let reset = instr_idx - self.instr_ckpt + 1 >= NRU_RESET_PERIOD;
        if reset {
            self.instr_ckpt = instr_idx + 1;
        }
        let mut off: usize = 0;
        let mut fcur: usize = hand;
        let mut best_class: usize = 0;
        let mut best_frame: usize = hand;
        let ghost mut best_off: int = 0;
        while off < nf
            invariant
                nf == self.num_frames,
                hand == self.hand,
                old(self).hand == hand,
                old(self).num_frames == nf,
                reset == (instr_idx as int - old(self).instr_ckpt >= NRU_RESET_PERIOD - 1),
                self.instr_ckpt == if reset { instr_idx as int + 1 } else { old(self).instr_ckpt as int },
                nf >= 1,
                hand < nf,
                0 <= off <= nf,
                fcur == wrap_index(hand as int, off as int, nf as int),
                oft == frame_table@,
                op == old(processes)@,
                oft.len() == nf,
                frames_all_occupied(oft),
                frames_index_procs(oft, op),
                frames_distinct(oft),
                refs_cleared_scanned(oft, op, processes@, hand as int, if reset { off as int } else { 0 }),
                procs_only_ref_cleared(op, processes@),
                off > 0 ==> {
                    &&& 0 <= best_off < off
                    &&& best_frame == wrap_index(hand as int, best_off, nf as int)
                    &&& best_class == class_at(oft, op, best_frame as int)
                    &&& forall|k: int|
                        0 <= k < off ==> class_at(oft, op, wrap_index(hand as int, k, nf as int))
                            >= best_class
                    &&& forall|k: int|
                        0 <= k < best_off ==> class_at(oft, op, wrap_index(hand as int, k, nf as int))
                            > best_class
                },
            decreases nf - off,
        {
            let fr = frame_table[fcur].unwrap();
            let pid = fr.pid;
            let vp = fr.vpage;
            proof {
                assert(occ(oft, fcur as int).pid == pid && occ(oft, fcur as int).vpage == vp);
                assert(pid < processes@.len() && vp < NUM_PAGES);
                assert(proc_meta_eq(op[pid as int], processes@[pid as int]));
                assert(!scanned_before(oft, hand as int, if reset { off as int } else { 0 }, pid as int, vp as int)) by {
                    if scanned_before(oft, hand as int, if reset { off as int } else { 0 }, pid as int, vp as int) {
                        let k = choose|k: int|
                            0 <= k < (if reset { off as int } else { 0 })
                                && occ_at(oft, hand as int, k, pid as int, vp as int);
                        assert(wrap_index(hand as int, k, nf as int) != fcur as int);
                        assert(false);
                    }
                }
                assert(processes@[pid as int].page_table@[vp as int]
                    == op[pid as int].page_table@[vp as int]);
            }
            let e = processes[pid].page_table[vp];
            let cls: usize = (if e.referenced { 2 } else { 0 }) + (if e.modified { 1 } else { 0 });
            proof {
                assert(cls == class_at(oft, op, fcur as int));
            }
            if reset {
                let ghost before = processes@;
                let pte = &mut processes[pid].page_table[vp];
                pte.referenced = false;
                proof {
                    assert(occ_at(oft, hand as int, off as int, pid as int, vp as int));
                    assert forall|q: int, w: int|
                        0 <= q < op.len() && 0 <= w < op[q].page_table@.len()
                        implies (#[trigger] processes@[q].page_table@[w]) == (
                            if scanned_before(oft, hand as int, off + 1, q, w) {
                                pte_with_ref(op[q].page_table@[w], false)
                            } else {
                                op[q].page_table@[w]
                            }
                        ) by {
                        if q == pid as int && w == vp as int {
                            assert(scanned_before(oft, hand as int, off + 1, q, w));
                        } else {
                            assert(processes@[q].page_table@[w] == before[q].page_table@[w]);
                            if scanned_before(oft, hand as int, off + 1, q, w) {
                                let k = choose|k: int|
                                    0 <= k < off + 1 && occ_at(oft, hand as int, k, q, w);
                                assert(k < off);
                                assert(scanned_before(oft, hand as int, off as int, q, w));
                            } else {
                                if scanned_before(oft, hand as int, off as int, q, w) {
                                    let k = choose|k: int|
                                        0 <= k < off && occ_at(oft, hand as int, k, q, w);
                                    assert(occ_at(oft, hand as int, k, q, w));
                                    assert(false);
                                }
                            }
                        }
                    }
                }
            }
            if off == 0 || cls < best_class {
                best_class = cls;
                best_frame = fcur;
                proof {
                    best_off = off as int;
                }
            }
            off = off + 1;
            fcur = if fcur + 1 == nf { 0 } else { fcur + 1 };
        }
        self.hand = if best_frame + 1 == nf { 0 } else { best_frame + 1 };
        proof {
            assert(nru_post(*old(self), *self, oft, op, processes@, instr_idx as int, best_frame)) by {
                assert(best_frame as int == wrap_index(hand as int, best_off, nf as int));
            }
        }
        best_frame
    }
}

/// Working-set replacement: a frame whose page is unreferenced and unused
/// for `TAU` instructions is reclaimed at once; otherwise the longest-unused
/// unreferenced frame loses, and frame 0 stands in when every page was
/// referenced.
pub struct WorkingSet {
    pub hand: usize,
    pub num_frames: usize,
    pub tau: usize,
}

/// Frame `f` is reclaimable at once: unreferenced and outside the window.
pub open spec fn ws_stop(ft: Seq<Option<Frame>>, op: Seq<Process>, idx: int, tau: int, f: int) -> bool {
    &&& !ref_at(ft, op, f)
    &&& idx - (occ(ft, f).age as int) >= tau
}

/// Scan step `k` saw an unreferenced page used strictly before `idx`.
pub open spec fn ws_candidate(
    ft: Seq<Option<Frame>>,
    op: Seq<Process>,
    idx: int,
    hand: int,
    nf: int,
    k: int,
) -> bool {
    &&& !ref_at(ft, op, wrap_index(hand, k, nf))
    &&& (occ(ft, wrap_index(hand, k, nf)).age as int) < idx
}

/// The frames after the first `j` scan steps: referenced pages had their
/// last use stamped to `idx`; the rest are untouched.
pub open spec fn ws_frames_updated(
    oft: Seq<Option<Frame>>,
    op: Seq<Process>,
    nft: Seq<Option<Frame>>,
    hand: int,
    j: int,
    idx: int,
) -> bool {
    let nf = oft.len() as int;
    &&& nft.len() == oft.len()
    &&& forall|k: int|
        0 <= k < j ==> (#[trigger] nft[wrap_index(hand, k, nf)]) == Some(
            if ref_at(oft, op, wrap_index(hand, k, nf)) {
                Frame { age: idx as u32, ..occ(oft, wrap_index(hand, k, nf)) }
            } else {
                occ(oft, wrap_index(hand, k, nf))
            },
        )
    &&& forall|k: int| j <= k < nf ==> (#[trigger] nft[wrap_index(hand, k, nf)]) == oft[wrap_index(hand, k, nf)]
}

/// The fallback victim once the whole table was scanned: the first
/// least-recently-used unreferenced frame, or frame 0 if none qualifies.
pub open spec fn ws_tracked_victim(
    ft: Seq<Option<Frame>>,
    op: Seq<Process>,
    idx: int,
    hand: int,
    nf: int,
    r: usize,
) -> bool {
    if exists|k: int| 0 <= k < nf && #[trigger] ws_candidate(ft, op, idx, hand, nf, k) {
        exists|j: int| #![trigger ws_candidate(ft, op, idx, hand, nf, j)] {
            &&& 0 <= j < nf
            &&& ws_candidate(ft, op, idx, hand, nf, j)
            &&& r == wrap_index(hand, j, nf)
            &&& forall|k: int|
                0 <= k < nf && ws_candidate(ft, op, idx, hand, nf, k)
                    ==> occ(ft, wrap_index(hand, k, nf)).age >= occ(ft, wrap_index(hand, j, nf)).age
            &&& forall|k: int|
                0 <= k < j && ws_candidate(ft, op, idx, hand, nf, k)
                    ==> occ(ft, wrap_index(hand, k, nf)).age > occ(ft, wrap_index(hand, j, nf)).age
        }
    } else {
        r == 0
    }
}

/// One working-set search: scanning from the hand, referenced pages get a
/// fresh last-use stamp and lose their bit; the first frame outside the
/// window is taken at once, else the tracked fallback loses.
pub open spec fn ws_post(
    o: WorkingSet,
    n: WorkingSet,
    oft: Seq<Option<Frame>>,
    nft: Seq<Option<Frame>>,
    op: Seq<Process>,
    np: Seq<Process>,
    idx: int,
    r: usize,
) -> bool {
    let nf = o.num_frames as int;
    let hand = o.hand as int;
    let tau = o.tau as int;
    &&& n.num_frames == o.num_frames
    &&& n.tau == o.tau
    &&& n.hand == wrap_index(r as int, 1, nf)
    &&& exists|j: int| #![trigger wrap_index(hand, j, nf)] {
        &&& 0 <= j <= nf
        &&& (forall|k: int| 0 <= k < j ==> !ws_stop(oft, op, idx, tau, wrap_index(hand, k, nf)))
        &&& ws_frames_updated(oft, op, nft, hand, j, idx)
        &&& refs_cleared_scanned(oft, op, np, hand, j)
        &&& if j < nf {
            &&& ws_stop(oft, op, idx, tau, wrap_index(hand, j, nf))
            &&& r == wrap_index(hand, j, nf)
        } else {
            ws_tracked_victim(oft, op, idx, hand, nf, r)
        }
    }
}

impl WorkingSet {
    pub fn new(num_frames: usize) -> (p: WorkingSet)
        ensures
            p.hand == 0,
            p.num_frames == num_frames,
            p.tau == TAU,
    {
        WorkingSet { hand: 0, num_frames, tau: TAU }
    }

    pub open spec fn wf(self, nf: int) -> bool {
        &&& self.num_frames == nf
        &&& self.hand < nf
        &&& self.tau == TAU
    }

    /// Scan from the hand: stamp and strip referenced pages, reclaim the
    /// first frame outside the window, else the least recently used.
    pub fn select_victim_frame(
        &mut self,
        frame_table: &mut Vec<Option<Frame>>,
        processes: &mut Vec<Process>,
        instr_idx: usize,
    ) -> (r: usize)
        requires
            old(self).num_frames >= 1,
            old(self).hand < old(self).num_frames,
            instr_idx < 0xFFFF_FFFFusize,
            old(frame_table)@.len() == old(self).num_frames,
            frames_all_occupied(old(frame_table)@),
            frames_index_procs(old(frame_table)@, old(processes)@),
            frames_distinct(old(frame_table)@),
            forall|f: int|
                0 <= f < old(frame_table)@.len() && (#[trigger] old(frame_table)@[f]) is Some
                    ==> (occ(old(frame_table)@, f).age as int) <= instr_idx,
        ensures
            r < old(self).num_frames,
            same_occupancy(old(frame_table)@, final(frame_table)@),
            procs_only_ref_cleared(old(processes)@, final(processes)@),
            forall|f: int|
                0 <= f < final(frame_table)@.len() && (#[trigger] final(frame_table)@[f]) is Some
                    ==> (occ(final(frame_table)@, f).age as int) <= instr_idx,
            ws_post(*old(self), *final(self), old(frame_table)@, final(frame_table)@, old(processes)@, final(processes)@, instr_idx as int, r),
    {
        let nf = self.num_frames;
        let hand = self.hand;
        let tau = self.tau;
        let ghost oft = frame_table@;
        let ghost op = processes@;
        let mut off: usize = 0;
        let mut fcur: usize = hand;
        let mut best_age: u32 = instr_idx as u32;
        let mut best_frame: usize = 0;
        let ghost mut best_off: Option<int> = None;
        while off < nf
            invariant
                nf == self.num_frames,
                hand == self.hand,
                tau == self.tau,
                old(self).hand == hand,
                old(self).num_frames == nf,
                old(self).tau == tau,
                instr_idx < 0xFFFF_FFFFusize,
                nf >= 1,
                hand < nf,
                0 <= off <= nf,
                fcur == wrap_index(hand as int, off as int, nf as int),
                oft == old(frame_table)@,
                op == old(processes)@,
                oft.len() == nf,
                frame_table@.len() == nf,
                frames_all_occupied(oft),
                frames_index_procs(oft, op),
                frames_distinct(oft),
                forall|f: int|
                    0 <= f < oft.len() && (#[trigger] oft[f]) is Some
                        ==> (occ(oft, f).age as int) <= instr_idx,
                same_occupancy(oft, frame_table@),
                forall|f: int|
                    0 <= f < frame_table@.len() && (#[trigger] frame_table@[f]) is Some
                        ==> (occ(frame_table@, f).age as int) <= instr_idx,
                forall|k: int|
                    0 <= k < off ==> !ws_stop(oft, op, instr_idx as int, tau as int, wrap_index(hand as int, k, nf as int)),
                ws_frames_updated(oft, op, frame_table@, hand as int, off as int, instr_idx as int),
                refs_cleared_scanned(oft, op, processes@, hand as int, off as int),
                procs_only_ref_cleared(op, processes@),
                match best_off {
                    Some(b) => {
                        &&& 0 <= b < off
                        &&& ws_candidate(oft, op, instr_idx as int, hand as int, nf as int, b)
                        &&& best_frame == wrap_index(hand as int, b, nf as int)
                        &&& best_age == occ(oft, best_frame as int).age
                        &&& forall|k: int|
                            0 <= k < off && ws_candidate(oft, op, instr_idx as int, hand as int, nf as int, k)
                                ==> occ(oft, wrap_index(hand as int, k, nf as int)).age >= best_age
                        &&& forall|k: int|
                            0 <= k < b && ws_candidate(oft, op, instr_idx as int, hand as int, nf as int, k)
                                ==> occ(oft, wrap_index(hand as int, k, nf as int)).age > best_age
                    },
                    None => {
                        &&& best_frame == 0
                        &&& best_age == instr_idx as u32
                        &&& forall|k: int|
                            0 <= k < off ==> !ws_candidate(oft, op, instr_idx as int, hand as int, nf as int, k)
                    },
                },
            decreases nf - off,
        {
            proof {
                assert(frame_table@[wrap_index(hand as int, off as int, nf as int)]
                    == oft[fcur as int]);
            }
            let fr = frame_table[fcur].unwrap();
            let pid = fr.pid;
            let vp = fr.vpage;
            proof {
                assert(occ(oft, fcur as int).pid == pid && occ(oft, fcur as int).vpage == vp);
                assert(occ(oft, fcur as int).age == fr.age);
                assert(pid < processes@.len() && vp < NUM_PAGES);
                assert(proc_meta_eq(op[pid as int], processes@[pid as int]));
                assert(!scanned_before(oft, hand as int, off as int, pid as int, vp as int)) by {
                    if scanned_before(oft, hand as int, off as int, pid as int, vp as int) {
                        let k = choose|k: int|
                            0 <= k < off && occ_at(oft, hand as int, k, pid as int, vp as int);
                        assert(wrap_index(hand as int, k, nf as int) != fcur as int);
                        assert(false);
                    }
                }
                assert(processes@[pid as int].page_table@[vp as int]
                    == op[pid as int].page_table@[vp as int]);
            }
            let is_ref = processes[pid].page_table[vp].referenced;
            if is_ref {
                frame_table[fcur] = Some(Frame { pid, vpage: vp, age: instr_idx as u32 });
                let ghost before = processes@;
                let pte = &mut processes[pid].page_table[vp];
                pte.referenced = false;
                proof {
                    assert(occ_at(oft, hand as int, off as int, pid as int, vp as int));
                    assert forall|q: int, w: int|
                        0 <= q < op.len() && 0 <= w < op[q].page_table@.len()
                        implies (#[trigger] processes@[q].page_table@[w]) == (
                            if scanned_before(oft, hand as int, off + 1, q, w) {
                                pte_with_ref(op[q].page_table@[w], false)
                            } else {
                                op[q].page_table@[w]
                            }
                        ) by {
                        if q == pid as int && w == vp as int {
                            assert(scanned_before(oft, hand as int, off + 1, q, w));
                        } else {
                            assert(processes@[q].page_table@[w] == before[q].page_table@[w]);
                            if scanned_before(oft, hand as int, off + 1, q, w) {
                                let k = choose|k: int|
                                    0 <= k < off + 1 && occ_at(oft, hand as int, k, q, w);
                                assert(k < off);
                                assert(scanned_before(oft, hand as int, off as int, q, w));
                            } else {
                                if scanned_before(oft, hand as int, off as int, q, w) {
                                    let k = choose|k: int|
                                        0 <= k < off && occ_at(oft, hand as int, k, q, w);
                                    assert(occ_at(oft, hand as int, k, q, w));
                                    assert(false);
                                }
                            }
                        }
                    }
                    assert forall|k: int|
                        0 <= k < off + 1
                        implies (#[trigger] frame_table@[wrap_index(hand as int, k, nf as int)]) == Some(
                            if ref_at(oft, op, wrap_index(hand as int, k, nf as int)) {
                                Frame { age: instr_idx as u32, ..occ(oft, wrap_index(hand as int, k, nf as int)) }
                            } else {
                                occ(oft, wrap_index(hand as int, k, nf as int))
                            },
                        ) by {
                        if k < off {
                            assert(wrap_index(hand as int, k, nf as int) != fcur as int);
                        } else {
                            assert(ref_at(oft, op, fcur as int));
                        }
                    }
                    assert(!ws_stop(oft, op, instr_idx as int, tau as int, fcur as int));
                    assert(!ws_candidate(oft, op, instr_idx as int, hand as int, nf as int, off as int));
                }
            } else {
                let age = fr.age;
                proof {
                    assert((age as int) <= instr_idx);
                }
                if instr_idx - (age as usize) >= tau {
                    self.hand = if fcur + 1 == nf { 0 } else { fcur + 1 };
                    proof {
                        assert(ws_stop(oft, op, instr_idx as int, tau as int, fcur as int));
                        assert(ws_post(*old(self), *self, oft, frame_table@, op, processes@, instr_idx as int, fcur)) by {
                            let j = off as int;
                            assert(fcur as int == wrap_index(hand as int, j, nf as int));
                            assert(ws_frames_updated(oft, op, frame_table@, hand as int, j, instr_idx as int));
                            assert(refs_cleared_scanned(oft, op, processes@, hand as int, j));
                        }
                    }
                    return fcur;
                }
                proof {
                    assert(!ws_stop(oft, op, instr_idx as int, tau as int, fcur as int));
                    assert(frame_table@[wrap_index(hand as int, off as int, nf as int)] == oft[fcur as int]);
                    assert forall|k: int|
                        0 <= k < off + 1
                        implies (#[trigger] frame_table@[wrap_index(hand as int, k, nf as int)]) == Some(
                            if ref_at(oft, op, wrap_index(hand as int, k, nf as int)) {
                                Frame { age: instr_idx as u32, ..occ(oft, wrap_index(hand as int, k, nf as int)) }
                            } else {
                                occ(oft, wrap_index(hand as int, k, nf as int))
                            },
                        ) by {
                        if k < off {
                        } else {
                            assert(!ref_at(oft, op, fcur as int));
                            assert(frame_table@[fcur as int] == oft[fcur as int]);
                            assert(oft[fcur as int] == Some(occ(oft, fcur as int)));
                        }
                    }
                    assert forall|q: int, w: int|
                        0 <= q < op.len() && 0 <= w < op[q].page_table@.len()
                        implies (#[trigger] processes@[q].page_table@[w]) == (
                            if scanned_before(oft, hand as int, off + 1, q, w) {
                                pte_with_ref(op[q].page_table@[w], false)
                            } else {
                                op[q].page_table@[w]
                            }
                        ) by {
                        if scanned_before(oft, hand as int, off + 1, q, w) {
                            if !scanned_before(oft, hand as int, off as int, q, w) {
                                let k = choose|k: int|
                                    0 <= k < off + 1 && occ_at(oft, hand as int, k, q, w);
                                assert(k == off);
                                assert(q == pid as int && w == vp as int);
                                assert(!op[q].page_table@[w].referenced);
                                assert(pte_with_ref(op[q].page_table@[w], false) == op[q].page_table@[w]);
                                assert(scanned_before(oft, hand as int, off as int, q, w)
                                    || processes@[q].page_table@[w] == op[q].page_table@[w]);
                            }
                        }
                    }
                }
                if age < best_age {
                    best_age = age;
                    best_frame = fcur;
                    proof {
                        best_off = Some(off as int);
                        assert(ws_candidate(oft, op, instr_idx as int, hand as int, nf as int, off as int));
                    }
                } else {
                    proof {
                        if ws_candidate(oft, op, instr_idx as int, hand as int, nf as int, off as int) {
                            assert(occ(oft, fcur as int).age >= best_age);
                            if best_off is None {
                                assert((occ(oft, fcur as int).age as int) < instr_idx);
                                assert(false);
                            }
                        }
                    }
                }
            }
            off = off + 1;
            fcur = if fcur + 1 == nf { 0 } else { fcur + 1 };
        }
        self.hand = if best_frame + 1 == nf { 0 } else { best_frame + 1 };
        proof {
            assert(ws_post(*old(self), *self, oft, frame_table@, op, processes@, instr_idx as int, best_frame)) by {
                let j = nf as int;
                assert(ws_frames_updated(oft, op, frame_table@, hand as int, j, instr_idx as int));
                assert(refs_cleared_scanned(oft, op, processes@, hand as int, j));
                match best_off {
                    Some(b) => {
                        assert(ws_candidate(oft, op, instr_idx as int, hand as int, nf as int, b));
                        assert(ws_tracked_victim(oft, op, instr_idx as int, hand as int, nf as int, best_frame));
                    },
                    None => {
                        assert forall|k: int|
                            0 <= k < nf
                            implies !ws_candidate(oft, op, instr_idx as int, hand as int, nf as int, k) by {}
                        assert(ws_tracked_victim(oft, op, instr_idx as int, hand as int, nf as int, best_frame));
                    },
                }
            }
        }
        best_frame
    }
}

/// The family of replacement policies, dispatched by variant.
pub enum Pager {
    Fifo(FIFO),
    Rand(Random),
    Second(Clock),
    Age(Aging),
    Nru(NRU),
    Ws(WorkingSet),
}

impl Pager {
    /// Policy state that is internally consistent for a table of `nf` frames.
    pub open spec fn wf(self, nf: int) -> bool {
        &&& nf >= 1
        &&& match self {
            Pager::Fifo(p) => p.wf(nf),
            Pager::Rand(p) => p.wf(nf),
            Pager::Second(p) => p.wf(nf),
            Pager::Age(p) => p.wf(nf),
            Pager::Nru(p) => p.wf(nf),
            Pager::Ws(p) => p.wf(nf),
        }
    }

    /// The age a newly installed mapping starts from.
    pub fn update_age(&self, instr_idx: usize) -> (r: u32)
        requires
            instr_idx <= u32::MAX,
        ensures
            r == update_age_spec(*self, instr_idx as int),
    {
        match self {
            Pager::Fifo(_) => 0,
            Pager::Rand(_) => 0,
            Pager::Second(_) => 0,
            Pager::Age(_) => 0,
            Pager::Nru(_) => 0,
            Pager::Ws(_) => instr_idx as u32,
        }
    }

    /// Choose a victim frame among a fully occupied table, possibly clearing
    /// referenced bits and rewriting ages on the way.
    pub fn select_victim_frame(
        &mut self,
        frame_table: &mut Vec<Option<Frame>>,
        processes: &mut Vec<Process>,
        instr_idx: usize,
    ) -> (r: usize)
        requires
            old(self).wf(old(frame_table)@.len() as int),
            frames_all_occupied(old(frame_table)@),
            frames_index_procs(old(frame_table)@, old(processes)@),
            frames_distinct(old(frame_table)@),
            pager_history_ok(*old(self), old(frame_table)@, instr_idx as int),
            instr_idx < 0xFFFF_FFFFusize,
        ensures
            final(self).wf(final(frame_table)@.len() as int),
            r < old(frame_table)@.len(),
            same_occupancy(old(frame_table)@, final(frame_table)@),
            procs_only_ref_cleared(old(processes)@, final(processes)@),
            pager_history_ok(*final(self), final(frame_table)@, instr_idx + 1),
            select_post(
                *old(self),
                *final(self),
                old(frame_table)@,
                final(frame_table)@,
                old(processes)@,
                final(processes)@,
                instr_idx as int,
                r,
            ),
    {
        let r = match self {
            Pager::Fifo(p) => p.select_victim_frame(instr_idx),
            Pager::Rand(p) => p.select_victim_frame(instr_idx),
            Pager::Second(p) => p.select_victim_frame(frame_table, processes),
            Pager::Age(p) => p.select_victim_frame(frame_table, processes),
            Pager::Nru(p) => p.select_victim_frame(frame_table, processes, instr_idx),
            Pager::Ws(p) => p.select_victim_frame(frame_table, processes, instr_idx),
        };
        proof {
            reveal(select_post);
        }
        r
    }
}

/// The initial age of a fresh mapping, per policy.
pub open spec fn update_age_spec(p: Pager, idx: int) -> u32 {
    match p {
        Pager::Fifo(_) => 0,
        Pager::Rand(_) => 0,
        Pager::Second(_) => 0,
        Pager::Age(_) => 0,
        Pager::Nru(_) => 0,
        Pager::Ws(_) => idx as u32,
    }
}

/// Policy state that cannot refer to instructions that have not happened
/// yet after `ic` of them were processed.
pub open spec fn pager_history_ok(p: Pager, ft: Seq<Option<Frame>>, ic: int) -> bool {
    match p {
        Pager::Fifo(_) => true,
        Pager::Rand(_) => true,
        Pager::Second(_) => true,
        Pager::Age(_) => true,
        Pager::Nru(p) => p.instr_ckpt <= ic,
        Pager::Ws(_) => forall|f: int|
            0 <= f < ft.len() && (#[trigger] ft[f]) is Some ==> (occ(ft, f).age as int) <= ic,
    }
}

/// `pager_history_ok` only bounds indices from above, so it survives the
/// instruction count growing.
pub proof fn lemma_pager_history_mono(p: Pager, ft: Seq<Option<Frame>>, a: int, b: int)
    requires
        pager_history_ok(p, ft, a),
        a <= b,
    ensures
        pager_history_ok(p, ft, b),
{
}

/// Installing an occupant whose age is already in the past keeps the
/// policy's view of history consistent.
pub proof fn lemma_pager_history_install(p: Pager, ft: Seq<Option<Frame>>, f: int, fr: Frame, ic: int)
    requires
        pager_history_ok(p, ft, ic),
        0 <= f < ft.len(),
        fr.age <= ic,
    ensures
        pager_history_ok(p, ft.update(f, Some(fr)), ic),
{
}

/// Emptying frames never breaks the policy's view of history.
pub proof fn lemma_pager_history_clears(
    p: Pager,
    oft: Seq<Option<Frame>>,
    nft: Seq<Option<Frame>>,
    ic: int,
)
    requires
        pager_history_ok(p, oft, ic),
        nft.len() == oft.len(),
        forall|f: int| 0 <= f < oft.len() ==> nft[f] == oft[f] || (#[trigger] nft[f]) is None,
    ensures
        pager_history_ok(p, nft, ic),
{
}

/// `pager_history_ok` as it must hold before the first instruction.
pub open spec fn pager_history_ok_fresh(p: Pager) -> bool {
    match p {
        Pager::Fifo(_) => true,
        Pager::Rand(_) => true,
        Pager::Second(_) => true,
        Pager::Age(_) => true,
        Pager::Nru(p) => p.instr_ckpt == 0,
        Pager::Ws(_) => true,
    }
}

/// The exact effect of a victim search, per policy.
#[verifier::opaque]
pub open spec fn select_post(
    o: Pager,
    n: Pager,
    oft: Seq<Option<Frame>>,
    nft: Seq<Option<Frame>>,
    op: Seq<Process>,
    np: Seq<Process>,
    idx: int,
    r: usize,
) -> bool {
    match o {
        Pager::Fifo(p) => {
            &&& n matches Pager::Fifo(q) && fifo_post(p, q, r)
            &&& nft == oft
            &&& np == op
        },
        Pager::Rand(p) => {
            &&& n matches Pager::Rand(q) && rand_post(p, q, r)
            &&& nft == oft
            &&& np == op
        },
        Pager::Second(p) => {
            &&& n matches Pager::Second(q) && clock_post(p, q, oft, op, np, r)
            &&& nft == oft
        },
        Pager::Age(p) => {
            &&& n matches Pager::Age(q) && aging_post(p, q, oft, nft, op, np, r)
        },
        Pager::Nru(p) => {
            &&& n matches Pager::Nru(q) && nru_post(p, q, oft, op, np, idx, r)
            &&& nft == oft
        },
        Pager::Ws(p) => {
            &&& n matches Pager::Ws(q) && ws_post(p, q, oft, nft, op, np, idx, r)
        },
    }
}

} // verus!
