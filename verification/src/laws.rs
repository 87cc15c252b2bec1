//! The simulators' global laws, each proved from the contracts in the
//! neighbouring modules.

use vstd::prelude::*;
use crate::mmu::{
    accessed_pte, count_ctx, count_exits, count_rw, evicted_pte, fault_ok_outcome, fault_served,
    instr_arg_ok, rw_post, step_post, Frame, Instr, MMU, TraceEvent, NUM_PAGES,
};
use crate::pagers::occ;

verus! {

/// How many frames hold a page.
pub open spec fn occupied_count(ft: Seq<Option<Frame>>) -> int
    decreases ft.len(),
{
    if ft.len() == 0 {
        0
    } else {
        occupied_count(ft.drop_last()) + if ft.last() is Some { 1int } else { 0 }
    }
}

/// The unoccupied frame indices, as a set.
pub open spec fn none_set(ft: Seq<Option<Frame>>) -> Set<usize> {
    Set::new(|u: usize| (u as int) < ft.len() && ft[u as int] is None)
}

proof fn lemma_none_set_card(ft: Seq<Option<Frame>>)
    requires
        ft.len() <= usize::MAX,
    ensures
        none_set(ft).finite(),
        none_set(ft).len() == ft.len() - occupied_count(ft),
    decreases ft.len(),
{
    broadcast use vstd::set::group_set_axioms;

    if ft.len() == 0 {
        assert(none_set(ft) =~= Set::empty());
    } else {
        let dl = ft.drop_last();
        lemma_none_set_card(dl);
        let last = (ft.len() - 1) as usize;
        if ft.last() is None {
            assert(none_set(ft) =~= none_set(dl).insert(last));
            assert(!none_set(dl).contains(last));
        } else {
            assert(none_set(ft) =~= none_set(dl));
        }
    }
}

/// At every instant the free frames and the occupied frames partition the
/// frame table: their counts always sum to the number of frames.
pub proof fn lemma_frame_conservation(m: MMU)
    requires
        m.wf(),
    ensures
        m.free_frames@.len() + occupied_count(m.frame_table@) == m.nf(),
{
    broadcast use vstd::set::group_set_axioms;
    broadcast use vstd::seq_lib::group_seq_properties;

    assert(m.frame_table@.len() <= usize::MAX) by {
        vstd::std_specs::vec::axiom_spec_len(&m.frame_table);
    }
    let free = m.free_frames@;
    free.unique_seq_to_set();
    assert(free.to_set() =~= none_set(m.frame_table@)) by {
        assert forall|u: usize| free.to_set().contains(u)
            implies none_set(m.frame_table@).contains(u) by {
            assert(free.contains(u));
            let i = choose|i: int| 0 <= i < free.len() && free[i] == u;
        }
        assert forall|u: usize| none_set(m.frame_table@).contains(u)
            implies free.to_set().contains(u) by {
            assert(m.frame_table@[u as int] is None);
            assert(free.contains(u));
        }
    }
    lemma_none_set_card(m.frame_table@);
}

/// Occupied frames and present pages are in bijection: every occupied frame
/// holds a present page pointing back at it, every present page sits in an
/// occupied frame holding it, and no two frames hold the same page.
pub proof fn lemma_frame_pte_bijection(m: MMU)
    requires
        m.wf(),
    ensures
        forall|f: int|
            0 <= f < m.nf() && (#[trigger] m.frame_table@[f]) is Some ==> {
                let fr = m.frame_table@[f].unwrap();
                &&& fr.pid < m.np()
                &&& fr.vpage < NUM_PAGES
                &&& m.pte(fr.pid as int, fr.vpage as int).present
                &&& m.pte(fr.pid as int, fr.vpage as int).frame == Some(f as usize)
            },
        forall|p: int, v: int|
            0 <= p < m.np() && 0 <= v < NUM_PAGES && (#[trigger] m.pte(p, v)).present ==> {
                let fo = m.pte(p, v).frame;
                &&& fo is Some
                &&& fo.unwrap() < m.nf()
                &&& m.frame_table@[fo.unwrap() as int] is Some
                &&& m.frame_table@[fo.unwrap() as int].unwrap().pid == p
                &&& m.frame_table@[fo.unwrap() as int].unwrap().vpage == v
            },
        forall|f1: int, f2: int|
            0 <= f1 < m.nf() && 0 <= f2 < m.nf() && (#[trigger] m.frame_table@[f1]) is Some
                && (#[trigger] m.frame_table@[f2]) is Some
                && occ(m.frame_table@, f1).pid == occ(m.frame_table@, f2).pid
                && occ(m.frame_table@, f1).vpage == occ(m.frame_table@, f2).vpage ==> f1 == f2,
{
    assert forall|f1: int, f2: int|
        0 <= f1 < m.nf() && 0 <= f2 < m.nf() && (#[trigger] m.frame_table@[f1]) is Some
            && (#[trigger] m.frame_table@[f2]) is Some
            && occ(m.frame_table@, f1).pid == occ(m.frame_table@, f2).pid
            && occ(m.frame_table@, f1).vpage == occ(m.frame_table@, f2).vpage
        implies f1 == f2 by {
        let fr = m.frame_table@[f1].unwrap();
        assert(m.pte(fr.pid as int, fr.vpage as int).frame == Some(f1 as usize));
        assert(m.pte(fr.pid as int, fr.vpage as int).frame == Some(f2 as usize));
    }
}

/// Every instruction is a context switch, an exit, or an access: over any
/// load the three counts partition its length.
pub proof fn lemma_instruction_partition(insts: Seq<Instr>)
    ensures
        count_ctx(insts) + count_exits(insts) + count_rw(insts) == insts.len(),
    decreases insts.len(),
{
    if insts.len() > 0 {
        lemma_instruction_partition(insts.drop_last());
    }
}

/// Two consecutive context switches to the same pid produce exactly two
/// context-switch counts and no other effect, and trace nothing.
pub proof fn lemma_double_ctx(
    s0: MMU,
    s1: MMU,
    s2: MMU,
    pid: usize,
    idx: int,
    ev1: Seq<TraceEvent>,
    ev2: Seq<TraceEvent>,
)
    requires
        s0.wf(),
        idx == s0.inst_count,
        idx < 0xFFFF_FFFE,
        step_post(s0, s1, Instr::Ctx(pid), idx, Seq::empty(), ev1),
        step_post(s1, s2, Instr::Ctx(pid), idx + 1, Seq::empty(), ev2),
    ensures
        ev1 == Seq::<TraceEvent>::empty(),
        ev2 == Seq::<TraceEvent>::empty(),
        s2 == (MMU {
            current_process: Some(pid),
            ctx_switches: (s0.ctx_switches + 2) as u64,
            inst_count: (s0.inst_count + 2) as usize,
            ..s0
        }),
{
    assert(s0.ctx_switches + 2 <= idx + 2 <= 0xFFFF_FFFF);
}

/// A read of a page that is present and already referenced changes nothing
/// at all — no trace, no fault, no counter — beyond the instruction count.
pub proof fn lemma_repeat_read_silent(
    s0: MMU,
    s1: MMU,
    v: usize,
    idx: int,
    ev: Seq<TraceEvent>,
)
    requires
        s0.wf(),
        (s0.current_process is Some),
        v < NUM_PAGES,
        s0.pte(s0.current_process.unwrap() as int, v as int).present,
        s0.pte(s0.current_process.unwrap() as int, v as int).referenced,
        step_post(s0, s1, Instr::Read(v), idx, Seq::empty(), ev),
    ensures
        ev == Seq::<TraceEvent>::empty(),
        s1.frame_table@ == s0.frame_table@,
        s1.free_frames@ == s0.free_frames@,
        s1.pager == s0.pager,
        s1.current_process == s0.current_process,
        s1.ctx_switches == s0.ctx_switches,
        s1.process_exits == s0.process_exits,
        s1.inst_count == s0.inst_count + 1,
        s1.np() == s0.np(),
        forall|q: int, w: int|
            0 <= q < s0.np() && 0 <= w < NUM_PAGES ==> #[trigger] s1.pte(q, w) == s0.pte(q, w),
        forall|q: int|
            0 <= q < s0.np() ==> {
                &&& (#[trigger] s1.processes@[q]).unmaps == s0.processes@[q].unmaps
                &&& s1.processes@[q].maps == s0.processes@[q].maps
                &&& s1.processes@[q].ins == s0.processes@[q].ins
                &&& s1.processes@[q].outs == s0.processes@[q].outs
                &&& s1.processes@[q].fins == s0.processes@[q].fins
                &&& s1.processes@[q].fouts == s0.processes@[q].fouts
                &&& s1.processes@[q].zeros == s0.processes@[q].zeros
                &&& s1.processes@[q].segv == s0.processes@[q].segv
                &&& s1.processes@[q].segprot == s0.processes@[q].segprot
            },
{
    let p = s0.current_process.unwrap();
    let e = s0.pte(p as int, v as int);
    assert(crate::mmu::accessed_pte(e, false) == e);
    assert(s1.processes@[p as int].page_table@
        =~= s0.processes@[p as int].page_table@.update(v as int, e));
    assert(s1.processes@[p as int].page_table@ =~= s0.processes@[p as int].page_table@);
    assert(ev =~= Seq::<TraceEvent>::empty() + Seq::<TraceEvent>::empty());
}

/// A page receives MAP only inside a fault whose frame either came off the
/// free queue or was first emptied: in the trace of one access, any MAP is
/// preceded by the displaced page's UNMAP unless a free frame was drawn.
pub proof fn lemma_map_has_source(
    pre: MMU,
    post: MMU,
    v: usize,
    is_write: bool,
    idx: int,
    ev: Seq<TraceEvent>,
)
    requires
        (pre.current_process is Some),
        rw_post(pre, post, v, is_write, idx, Seq::empty(), ev),
    ensures
        forall|k: int|
            0 <= k < ev.len() && (#[trigger] ev[k]) is MapFrame ==> (exists|j: int|
                0 <= j < k && ev[j] is Unmap) || pre.free_frames@.len() > 0,
{
    let p = pre.current_process.unwrap();
    let e = pre.pte(p as int, v as int);
    if e.present {
        assert forall|k: int| 0 <= k < ev.len() implies !((#[trigger] ev[k]) is MapFrame) by {
            if is_write && e.write_protected {
                assert(ev[k] == TraceEvent::Segprot);
            } else {
                assert(ev.len() == 0);
            }
        }
    } else if !e.is_valid_vma {
        assert forall|k: int| 0 <= k < ev.len() implies !((#[trigger] ev[k]) is MapFrame) by {
            assert(ev[k] == TraceEvent::Segv);
        }
    } else {
        let (h, hev) = choose|h: MMU, hev: Seq<TraceEvent>| {
            &&& #[trigger] fault_served(pre, h, p, v, idx, Seq::empty(), hev)
            &&& crate::mmu::access_tail(h, post, p, v, is_write, hev, ev)
        };
        let (mid, f, mev) = choose|mid: MMU, f: usize, mev: Seq<TraceEvent>|
            fault_ok_outcome(pre, h, mid, f, mev, p, v, idx, Seq::empty(), hev);
        if pre.free_frames@.len() > 0 {
        } else {
            let (mft, mprocs) = choose|mft: Seq<Option<Frame>>, mprocs: Seq<crate::mmu::Process>|
                crate::mmu::evict_outcome(pre, mid, mft, mprocs, f, idx, Seq::empty(), mev);
            assert(mev[0] is Unmap);
            assert(ev[0] == mev[0]);
            assert forall|k: int| 0 <= k < ev.len() && (#[trigger] ev[k]) is MapFrame
                implies exists|j: int| 0 <= j < k && ev[j] is Unmap by {
                assert(k != 0);
                assert(0 <= 0 < k && ev[0] is Unmap);
            }
        }
    }
}

/// `paged_out` becomes true only when a modified page that is not
/// file-mapped is evicted from its frame, and a process exit clears it on
/// every page of the exiting process.
pub proof fn lemma_paged_out_transitions(
    pre: MMU,
    post: MMU,
    instr: Instr,
    idx: int,
    ev: Seq<TraceEvent>,
)
    requires
        pre.wf(),
        instr_arg_ok(instr, pre),
        step_post(pre, post, instr, idx, Seq::empty(), ev),
    ensures
        post.np() == pre.np(),
        forall|q: int, w: int|
            0 <= q < pre.np() && 0 <= w < NUM_PAGES && !(#[trigger] pre.pte(q, w)).paged_out
                && post.pte(q, w).paged_out ==> {
                &&& pre.pte(q, w).present
                &&& pre.pte(q, w).modified
                &&& !pre.pte(q, w).file_mapped
                &&& !post.pte(q, w).present
            },
        instr matches Instr::Exit(pid) ==> forall|w: int|
            0 <= w < NUM_PAGES ==> !(#[trigger] post.pte(pid as int, w)).paged_out,
{
    match instr {
        Instr::Ctx(_) => {
        },
        Instr::Exit(pid) => {
            assert forall|q: int, w: int|
                0 <= q < pre.np() && 0 <= w < NUM_PAGES && !(#[trigger] pre.pte(q, w)).paged_out
                    && post.pte(q, w).paged_out implies false by {
                if q == pid as int {
                    assert(post.pte(q, w) == crate::mmu::exit_pte(pre.pte(q, w)));
                } else {
                    assert(post.processes@[q] == pre.processes@[q]);
                }
            }
        },
        Instr::Read(_) | Instr::Write(_) => {
            let vv = match instr {
                Instr::Read(x) => x,
                Instr::Write(x) => x,
                _ => 0,
            };
            let is_write = instr is Write;
            let p = pre.current_process.unwrap();
            let e = pre.pte(p as int, vv as int);
            if e.present {
                assert forall|q: int, w: int|
                    0 <= q < pre.np() && 0 <= w < NUM_PAGES
                        && !(#[trigger] pre.pte(q, w)).paged_out && post.pte(q, w).paged_out
                    implies false by {
                    if q == p as int && w == vv as int {
                        assert(post.pte(q, w) == accessed_pte(e, is_write));
                    } else {
                        assert(post.pte(q, w) == pre.pte(q, w));
                    }
                }
            } else if !e.is_valid_vma {
                assert forall|q: int, w: int|
                    0 <= q < pre.np() && 0 <= w < NUM_PAGES
                        && !(#[trigger] pre.pte(q, w)).paged_out && post.pte(q, w).paged_out
                    implies false by {
                    assert(post.processes@[q].page_table@ == pre.processes@[q].page_table@);
                }
            } else {
                let (h, hev) = choose|h: MMU, hev: Seq<TraceEvent>| {
                    &&& #[trigger] fault_served(pre, h, p, vv, idx, Seq::empty(), hev)
                    &&& crate::mmu::access_tail(h, post, p, vv, is_write, hev, ev)
                };
                let (mid, f, mev) = choose|mid: MMU, ff: usize, mev: Seq<TraceEvent>|
                    fault_ok_outcome(pre, h, mid, ff, mev, p, vv, idx, Seq::empty(), hev);
                assert forall|q: int, w: int|
                    0 <= q < pre.np() && 0 <= w < NUM_PAGES
                        && !(#[trigger] pre.pte(q, w)).paged_out && post.pte(q, w).paged_out
                    implies {
                    &&& pre.pte(q, w).present
                    &&& pre.pte(q, w).modified
                    &&& !pre.pte(q, w).file_mapped
                    &&& !post.pte(q, w).present
                } by {
                    if pre.free_frames@.len() > 0 {
                        if q == p as int && w == vv as int {
                            assert(false);
                        } else {
                            assert(post.pte(q, w) == pre.pte(q, w));
                            assert(false);
                        }
                    } else {
                        let (mft, mprocs) = choose|mft: Seq<Option<Frame>>, mprocs: Seq<crate::mmu::Process>|
                            crate::mmu::evict_outcome(pre, mid, mft, mprocs, f, idx, Seq::empty(), mev);
                        let vic = occ(mft, f as int);
                        assert(crate::pagers::proc_only_ref_cleared(pre.processes@[q], mprocs[q]));
                        assert(crate::pagers::pte_only_ref_cleared(
                            pre.pte(q, w), mprocs[q].page_table@[w]));
                        if q == vic.pid as int && w == vic.vpage as int {
                            assert(mid.pte(q, w) == evicted_pte(mprocs[q].page_table@[w]));
                            assert(occ(pre.frame_table@, f as int).pid == vic.pid);
                            assert(pre.frame_table@[f as int] is Some);
                            assert(pre.pte(q, w).present);
                            assert(!(q == p as int && w == vv as int));
                            assert(h.pte(q, w) == mid.pte(q, w));
                            assert(post.pte(q, w) == h.pte(q, w));
                        } else {
                            assert(mid.pte(q, w) == mprocs[q].page_table@[w]);
                            if q == p as int && w == vv as int {
                                assert(h.pte(q, w) == crate::mmu::installed_pte(
                                    mid.pte(q, w), f));
                                assert(post.pte(q, w) == accessed_pte(h.pte(q, w), is_write));
                                assert(false);
                            } else {
                                assert(h.pte(q, w) == mid.pte(q, w));
                                assert(post.pte(q, w) == h.pte(q, w));
                                assert(false);
                            }
                        }
                    }
                }
            }
        },
    }
}

} // verus!
