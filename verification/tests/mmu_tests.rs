use ossim::mmu::{
    check_instructions, page_token, Instr, PageToken, Process, TraceEvent, MMU, PTE, VMA,
};
use ossim::pagers::{Aging, Clock, Pager, Random, WorkingSet, FIFO, NRU};

fn one_process(vmas: Vec<(usize, usize, bool, bool)>) -> Vec<Process> {
    let vmas = vmas
        .into_iter()
        .map(|(s, e, w, f)| VMA::new(s, e, w, f))
        .collect::<Vec<VMA>>();
    vec![Process::new(vmas)]
}

fn unmap(pid: usize, vpage: usize) -> TraceEvent {
    TraceEvent::Unmap { pid, vpage }
}

fn map(frame: usize) -> TraceEvent {
    TraceEvent::MapFrame { frame }
}

#[test]
fn fifo_two_frames_scenario() {
    let procs = one_process(vec![(0, 3, false, false)]);
    let mut mmu = MMU::new(2, Pager::Fifo(FIFO::new(2)), procs);
    let insts = vec![
        Instr::Ctx(0),
        Instr::Read(0),
        Instr::Read(1),
        Instr::Read(2),
        Instr::Read(0),
    ];
    let traces = mmu.run(&insts);
    assert_eq!(traces[0], vec![]);
    assert_eq!(traces[1], vec![TraceEvent::Zero, map(0)]);
    assert_eq!(traces[2], vec![TraceEvent::Zero, map(1)]);
    assert_eq!(traces[3], vec![unmap(0, 0), TraceEvent::Zero, map(0)]);
    assert_eq!(traces[4], vec![unmap(0, 1), TraceEvent::Zero, map(1)]);
    assert_eq!(mmu.processes[0].maps, 4);
    assert_eq!(mmu.processes[0].unmaps, 2);
    assert_eq!(mmu.processes[0].zeros, 4);
}

#[test]
fn clock_gives_second_chances() {
    let procs = one_process(vec![(0, 3, false, false)]);
    let mut mmu = MMU::new(2, Pager::Second(Clock::new(2)), procs);
    let insts = vec![
        Instr::Ctx(0),
        Instr::Read(0),
        Instr::Read(1),
        Instr::Read(0),
        Instr::Read(2),
    ];
    let traces = mmu.run(&insts);
    // faulting on page 2: both pages are referenced, both lose the bit,
    // and the sweep wraps back to frame 0
    assert_eq!(traces[4], vec![unmap(0, 0), TraceEvent::Zero, map(0)]);
}

#[test]
fn write_to_protected_page_is_refused() {
    let procs = one_process(vec![(0, 0, true, false)]);
    let mut mmu = MMU::new(2, Pager::Fifo(FIFO::new(2)), procs);
    let insts = vec![Instr::Ctx(0), Instr::Write(0)];
    let traces = mmu.run(&insts);
    assert_eq!(traces[1], vec![TraceEvent::Zero, map(0), TraceEvent::Segprot]);
    assert_eq!(mmu.processes[0].segprot, 1);
    assert!(!mmu.processes[0].page_table[0].modified);
}

#[test]
fn access_outside_every_area_faults_to_segv() {
    let procs = one_process(vec![(0, 3, false, false)]);
    let mut mmu = MMU::new(2, Pager::Fifo(FIFO::new(2)), procs);
    let insts = vec![Instr::Ctx(0), Instr::Read(9)];
    let traces = mmu.run(&insts);
    assert_eq!(traces[1], vec![TraceEvent::Segv]);
    assert_eq!(mmu.processes[0].segv, 1);
    assert_eq!(mmu.processes[0].maps, 0);
}

#[test]
fn modified_anonymous_page_goes_out_and_comes_back_in() {
    let procs = one_process(vec![(0, 3, false, false)]);
    let mut mmu = MMU::new(1, Pager::Fifo(FIFO::new(1)), procs);
    let insts = vec![Instr::Ctx(0), Instr::Write(0), Instr::Read(1), Instr::Read(0)];
    let traces = mmu.run(&insts);
    assert_eq!(traces[1], vec![TraceEvent::Zero, map(0)]);
    assert_eq!(traces[2], vec![unmap(0, 0), TraceEvent::Out, TraceEvent::Zero, map(0)]);
    assert_eq!(traces[3], vec![unmap(0, 1), TraceEvent::In, map(0)]);
    assert_eq!(mmu.processes[0].outs, 1);
    assert_eq!(mmu.processes[0].ins, 1);
    assert!(mmu.processes[0].page_table[0].paged_out);
}

#[test]
fn file_mapped_page_is_fetched_and_written_back() {
    let procs = one_process(vec![(0, 1, false, true)]);
    let mut mmu = MMU::new(1, Pager::Fifo(FIFO::new(1)), procs);
    let insts = vec![Instr::Ctx(0), Instr::Write(0), Instr::Read(1)];
    let traces = mmu.run(&insts);
    assert_eq!(traces[1], vec![TraceEvent::Fin, map(0)]);
    assert_eq!(traces[2], vec![unmap(0, 0), TraceEvent::Fout, TraceEvent::Fin, map(0)]);
    assert_eq!(mmu.processes[0].fins, 2);
    assert_eq!(mmu.processes[0].fouts, 1);
}

#[test]
fn exit_unmaps_in_page_order_and_clears_swap_history() {
    let procs = one_process(vec![(0, 3, false, false), (4, 4, false, true)]);
    let mut mmu = MMU::new(4, Pager::Fifo(FIFO::new(4)), procs);
    let insts = vec![
        Instr::Ctx(0),
        Instr::Write(2),
        Instr::Write(4),
        Instr::Read(0),
        Instr::Exit(0),
    ];
    let traces = mmu.run(&insts);
    assert_eq!(
        traces[4],
        vec![
            TraceEvent::ExitProc { pid: 0 },
            unmap(0, 0),
            unmap(0, 2),
            unmap(0, 4),
            TraceEvent::Fout,
        ]
    );
    assert_eq!(mmu.processes[0].unmaps, 3);
    assert_eq!(mmu.processes[0].fouts, 1);
    assert_eq!(mmu.process_exits, 1);
    for v in 0..64 {
        assert!(!mmu.processes[0].page_table[v].present);
        assert!(!mmu.processes[0].page_table[v].paged_out);
    }
    assert_eq!(mmu.free_frames.len(), 4);
}

#[test]
fn two_context_switches_count_twice_and_do_nothing_else() {
    let procs = one_process(vec![(0, 3, false, false)]);
    let mut mmu = MMU::new(2, Pager::Fifo(FIFO::new(2)), procs);
    let insts = vec![Instr::Ctx(0), Instr::Ctx(0)];
    let traces = mmu.run(&insts);
    assert_eq!(traces[0], vec![]);
    assert_eq!(traces[1], vec![]);
    assert_eq!(mmu.ctx_switches, 2);
    assert_eq!(mmu.process_exits, 0);
    assert_eq!(mmu.processes[0].maps, 0);
}

#[test]
fn repeated_read_maps_nothing_new() {
    let procs = one_process(vec![(0, 3, false, false)]);
    let mut mmu = MMU::new(2, Pager::Fifo(FIFO::new(2)), procs);
    let insts = vec![Instr::Ctx(0), Instr::Read(1), Instr::Read(1)];
    let traces = mmu.run(&insts);
    assert_eq!(traces[1], vec![TraceEvent::Zero, map(0)]);
    assert_eq!(traces[2], vec![]);
    assert_eq!(mmu.processes[0].maps, 1);
    assert!(mmu.processes[0].page_table[1].referenced);
}

#[test]
fn instruction_kinds_partition_the_count() {
    let procs = one_process(vec![(0, 3, false, false)]);
    let mut mmu = MMU::new(2, Pager::Fifo(FIFO::new(2)), procs);
    let insts = vec![
        Instr::Ctx(0),
        Instr::Read(0),
        Instr::Write(1),
        Instr::Ctx(0),
        Instr::Exit(0),
    ];
    let _ = mmu.run(&insts);
    let rw = insts
        .iter()
        .filter(|i| matches!(i, Instr::Read(_) | Instr::Write(_)))
        .count() as u64;
    assert_eq!(mmu.ctx_switches + mmu.process_exits + rw, insts.len() as u64);
    assert_eq!(mmu.inst_count, insts.len());
}

#[test]
fn total_cost_weighs_every_counter() {
    let procs = one_process(vec![(0, 3, false, false)]);
    let mut mmu = MMU::new(2, Pager::Fifo(FIFO::new(2)), procs);
    let insts = vec![
        Instr::Ctx(0),
        Instr::Read(0),
        Instr::Read(1),
        Instr::Read(2),
        Instr::Read(0),
    ];
    let _ = mmu.run(&insts);
    // maps 4, unmaps 2, zeros 4; one switch; four plain accesses
    let expected: u128 = 4 * 350 + 2 * 410 + 4 * 150 + 130 + 4;
    assert_eq!(mmu.total_cost(), expected);
}

#[test]
fn random_policy_consumes_the_injected_stream() {
    let procs = one_process(vec![(0, 3, false, false)]);
    let mut mmu = MMU::new(2, Pager::Rand(Random::new(2, vec![1, 0])), procs);
    let insts = vec![Instr::Ctx(0), Instr::Read(0), Instr::Read(1), Instr::Read(2)];
    let traces = mmu.run(&insts);
    // the first drawn number is 1: evict frame 1
    assert_eq!(traces[3], vec![unmap(0, 1), TraceEvent::Zero, map(1)]);
}

#[test]
fn nru_picks_the_first_frame_of_the_lowest_class() {
    let procs = one_process(vec![(0, 3, false, false)]);
    let mut mmu = MMU::new(2, Pager::Nru(NRU::new(2)), procs);
    let insts = vec![Instr::Ctx(0), Instr::Read(0), Instr::Write(1), Instr::Read(2)];
    let traces = mmu.run(&insts);
    // page 0 is class 2 (referenced), page 1 is class 3 (referenced, modified)
    assert_eq!(traces[3], vec![unmap(0, 0), TraceEvent::Zero, map(0)]);
}

#[test]
fn aging_takes_the_smallest_age_first_from_the_hand() {
    let procs = one_process(vec![(0, 3, false, false)]);
    let mut mmu = MMU::new(2, Pager::Age(Aging::new(2)), procs);
    let insts = vec![Instr::Ctx(0), Instr::Read(0), Instr::Read(1), Instr::Read(2)];
    let traces = mmu.run(&insts);
    // both ages decay to the same value; the hand breaks the tie at frame 0
    assert_eq!(traces[3], vec![unmap(0, 0), TraceEvent::Zero, map(0)]);
}

#[test]
fn working_set_stamps_referenced_frames_and_falls_back() {
    let procs = one_process(vec![(0, 3, false, false)]);
    let mut mmu = MMU::new(2, Pager::Ws(WorkingSet::new(2)), procs);
    let insts = vec![Instr::Ctx(0), Instr::Read(0), Instr::Read(1), Instr::Read(2)];
    let traces = mmu.run(&insts);
    // every page is referenced and inside the window: frame 0 stands in
    assert_eq!(traces[3], vec![unmap(0, 0), TraceEvent::Zero, map(0)]);
}

#[test]
fn same_input_same_policy_same_trace() {
    let insts = vec![
        Instr::Ctx(0),
        Instr::Write(0),
        Instr::Read(1),
        Instr::Read(2),
        Instr::Read(0),
        Instr::Exit(0),
    ];
    let mut m1 = MMU::new(2, Pager::Second(Clock::new(2)), one_process(vec![(0, 3, false, false)]));
    let mut m2 = MMU::new(2, Pager::Second(Clock::new(2)), one_process(vec![(0, 3, false, false)]));
    let t1 = m1.run(&insts);
    let t2 = m2.run(&insts);
    assert_eq!(t1, t2);
    assert_eq!(m1.total_cost(), m2.total_cost());
}

#[test]
fn page_tokens_classify_the_report() {
    let absent = PTE {
        frame: None,
        present: false,
        referenced: false,
        modified: false,
        write_protected: false,
        paged_out: false,
        file_mapped: false,
        is_valid_vma: true,
    };
    assert_eq!(page_token(&absent), PageToken::Absent);
    let swapped = PTE { paged_out: true, ..absent };
    assert_eq!(page_token(&swapped), PageToken::SwappedOut);
    let mapped = PTE { present: true, referenced: true, frame: Some(3), ..absent };
    assert_eq!(
        page_token(&mapped),
        PageToken::Mapped { referenced: true, modified: false, paged_out: false }
    );
    // a file-mapped page on "swap" is never reported as swapped out
    let filed = PTE { paged_out: true, file_mapped: true, ..absent };
    assert_eq!(page_token(&filed), PageToken::Absent);
}

#[test]
fn process_new_derives_page_attributes_from_the_first_area() {
    let procs = one_process(vec![(0, 2, true, false), (2, 4, false, true)]);
    let pt = &procs[0].page_table;
    assert_eq!(pt.len(), 64);
    assert!(pt[0].is_valid_vma && pt[0].write_protected && !pt[0].file_mapped);
    // page 2 is covered by both areas: the first one wins
    assert!(pt[2].is_valid_vma && pt[2].write_protected && !pt[2].file_mapped);
    assert!(pt[3].is_valid_vma && !pt[3].write_protected && pt[3].file_mapped);
    assert!(!pt[5].is_valid_vma);
}

#[test]
fn instruction_checker_rejects_bad_loads() {
    let good = vec![Instr::Ctx(0), Instr::Read(1)];
    assert!(check_instructions(&good, 1));
    let bad_pid = vec![Instr::Ctx(1)];
    assert!(!check_instructions(&bad_pid, 1));
    let read_before_ctx = vec![Instr::Read(0)];
    assert!(!check_instructions(&read_before_ctx, 1));
    let bad_page = vec![Instr::Ctx(0), Instr::Read(64)];
    assert!(!check_instructions(&bad_page, 1));
}
