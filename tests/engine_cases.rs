use bf_beavers::bf::{
    CompileError, ExecutionContext, ExecutionStatus, ExtendedInstr, Instr, LoopReason, LoopSpan,
    Program,
};
use bf_beavers::generate::{
    brute_force_chain, brute_force_iterator, lexiographic_order, next_program,
};
use bf_beavers::history::History;
use bf_beavers::search::{step_count, BusyBeaverResults};
use std::convert::TryFrom;

fn run(source: &str, max_calls: usize) -> (ExecutionStatus, usize) {
    let program = Program::try_from(source).unwrap();
    let mut ctx = ExecutionContext::new(&program);
    let mut total = 0;
    for _ in 0..max_calls {
        let (steps, status) = ctx.step();
        total += steps;
        if status != ExecutionStatus::Running {
            return (status, total);
        }
    }
    (ExecutionStatus::Running, total)
}

fn is_loop_span(status: &ExecutionStatus) -> bool {
    matches!(status, ExecutionStatus::InfiniteLoop(LoopReason::LoopSpan { .. }))
}

fn is_loop_if_nonzero(status: &ExecutionStatus) -> bool {
    matches!(status, ExecutionStatus::InfiniteLoop(LoopReason::LoopIfNonzero))
}

fn span(tape: Vec<u8>, start: usize, current: usize, min: usize, max: usize) -> LoopSpan {
    LoopSpan {
        memory_at_loop_start: tape,
        starting_memory_pointer: start,
        current_memory_pointer: current,
        min_index: min,
        max_index: max,
    }
}

#[test]
fn scenario_clear_after_increment_halts() {
    // One Plus, then a fused `[-]` on a cell of 1: 1 + (1 + 2 * 1).
    assert_eq!(run("+[-]", 1000), (ExecutionStatus::Halted, 4));
}

#[test]
fn scenario_nested_loops_halt() {
    assert_eq!(run(">+[>++++[-<]>>]", 100_000).0, ExecutionStatus::Halted);
    assert_eq!(run(">+[>++>+++[-<]>>]+", 100_000).0, ExecutionStatus::Halted);
}

#[test]
fn scenario_loop_if_nonzero_found() {
    assert!(is_loop_if_nonzero(&run("+[]", 1000).0));
    assert!(is_loop_if_nonzero(&run("-[-[+]+[]]", 1000).0));
}

#[test]
fn scenario_loop_spans_found() {
    assert!(is_loop_span(&run("+[<]", 1000).0));
    assert!(is_loop_span(&run("+[-+]", 1000).0));
    assert!(is_loop_span(&run("+[[+]-]", 1000).0));
}

#[test]
fn scenario_pointer_saturation_halts() {
    assert_eq!(run(">>>>>>>+[<+]", 100_000).0, ExecutionStatus::Halted);
}

#[test]
fn scenario_empty_source_halts_at_once() {
    let program = Program::try_from("").unwrap();
    let mut ctx = ExecutionContext::new(&program);
    assert_eq!(ctx.step(), (0, ExecutionStatus::Halted));
}

#[test]
fn set_to_zero_plus_counts_up_to_wrap() {
    // Plus, then `[+]` on a cell of 1: 1 + 2 * 255.
    assert_eq!(run("+[+]", 10), (ExecutionStatus::Halted, 512));
    assert_eq!(run("[+]", 10), (ExecutionStatus::Halted, 1));
}

#[test]
fn set_to_zero_minus_counts_down() {
    // Two Minus make 254, then `[-]`: 1 + 2 * 254.
    assert_eq!(run("--[-]", 10), (ExecutionStatus::Halted, 511));
}

#[test]
fn loop_if_nonzero_on_zero_counts_one() {
    assert_eq!(run("[]", 10), (ExecutionStatus::Halted, 1));
    assert_eq!(run(">[]+", 10), (ExecutionStatus::Halted, 3));
}

#[test]
fn loop_if_nonzero_does_not_advance() {
    let program = Program::try_from("+[]").unwrap();
    let mut ctx = ExecutionContext::new(&program);
    ctx.step();
    let (steps, status) = ctx.step();
    assert_eq!(steps, 2);
    assert!(is_loop_if_nonzero(&status));
    assert_eq!(ctx.program_pointer(), 1);
    let (steps, status) = ctx.step();
    assert_eq!(steps, 2);
    assert!(is_loop_if_nonzero(&status));
    assert_eq!(ctx.program_pointer(), 1);
}

#[test]
fn halted_is_sticky() {
    let program = Program::try_from("+>").unwrap();
    let mut ctx = ExecutionContext::new(&program);
    assert_eq!(ctx.step(), (1, ExecutionStatus::Running));
    assert_eq!(ctx.step(), (1, ExecutionStatus::Halted));
    for _ in 0..5 {
        assert_eq!(ctx.step(), (0, ExecutionStatus::Halted));
        assert_eq!(ctx.program_pointer(), 2);
        assert_eq!(ctx.tape(), &[1, 0]);
    }
}

#[test]
fn tape_grows_right_and_saturates_left() {
    let program = Program::try_from("<<>>-<").unwrap();
    let mut ctx = ExecutionContext::new(&program);
    let mut last_len = ctx.tape_length();
    assert_eq!(last_len, 1);
    loop {
        let (_, status) = ctx.step();
        assert!(ctx.tape_length() >= last_len);
        last_len = ctx.tape_length();
        if status == ExecutionStatus::Halted {
            break;
        }
    }
    assert_eq!(ctx.tape(), &[0, 0, 255]);
    assert_eq!(ctx.memory_pointer(), 1);
}

#[test]
fn with_memory_runs_on_given_tape() {
    let program = Program::try_from("[-]").unwrap();
    let mut ctx = ExecutionContext::with_memory(program, vec![3, 9]);
    assert_eq!(ctx.step(), (7, ExecutionStatus::Halted));
    assert_eq!(ctx.tape(), &[0, 9]);
}

#[test]
fn unmatched_end_loop_is_reported() {
    match Program::try_from("]") {
        Err(CompileError::UnmatchedEndLoop { index }) => assert_eq!(index, 0),
        other => panic!("unexpected: {:?}", other),
    }
    match Program::try_from("+[]]") {
        Err(CompileError::UnmatchedEndLoop { index }) => assert_eq!(index, 2),
        other => panic!("unexpected: {:?}", other),
    }
}

#[test]
fn unmatched_start_loops_are_reported() {
    match Program::try_from("[[+") {
        Err(CompileError::UnmatchedStartLoops { indices }) => assert_eq!(indices, vec![0, 1]),
        other => panic!("unexpected: {:?}", other),
    }
    match Program::try_from("[>[]") {
        Err(CompileError::UnmatchedStartLoops { indices }) => assert_eq!(indices, vec![0]),
        other => panic!("unexpected: {:?}", other),
    }
}

#[test]
fn fusion_replaces_idioms() {
    let program = Program::try_from("[+][-][]>").unwrap();
    assert_eq!(
        program.extended_instrs(),
        &[
            ExtendedInstr::SetToZeroPlus,
            ExtendedInstr::SetToZeroMinus,
            ExtendedInstr::LoopIfNonzero,
            ExtendedInstr::BaseInstr(Instr::Right),
        ]
    );
    let program = Program::try_from("[[]]").unwrap();
    assert_eq!(
        program.extended_instrs(),
        &[
            ExtendedInstr::BaseInstr(Instr::StartLoop),
            ExtendedInstr::LoopIfNonzero,
            ExtendedInstr::BaseInstr(Instr::EndLoop),
        ]
    );
}

#[test]
fn parse_ignores_other_characters_and_round_trips() {
    let parsed = Instr::parse("a+-<>[] b\n");
    assert_eq!(
        parsed,
        vec![
            Instr::Plus,
            Instr::Minus,
            Instr::Left,
            Instr::Right,
            Instr::StartLoop,
            Instr::EndLoop,
        ]
    );
    assert_eq!(Instr::to_string(&parsed), "+-<>[]");
    let seq = vec![Instr::EndLoop, Instr::Left, Instr::Left, Instr::StartLoop];
    assert_eq!(Instr::parse(&Instr::to_string(&seq)), seq);
    assert_eq!(Instr::parse_bytes(b"x>]"), vec![Instr::Right, Instr::EndLoop]);
}

#[test]
fn program_from_bytes_and_source_text() {
    let program = Program::try_from(&b"+x-"[..]).unwrap();
    assert_eq!(program.original_instrs(), &[Instr::Plus, Instr::Minus]);
    let program = Program::try_from("a+b[-]").unwrap();
    assert_eq!(program.to_source(), "+[-]");
}

#[test]
fn bracket_match_is_symmetric() {
    let program = Program::try_from("+[>[<]-]").unwrap();
    let n = program.extended_instrs().len();
    assert_eq!(program.matching_loop(1), Some(7));
    assert_eq!(program.matching_loop(7), Some(1));
    assert_eq!(program.matching_loop(3), Some(5));
    assert_eq!(program.matching_loop(0), None);
    for k in 0..n {
        if let Some(j) = program.matching_loop(k) {
            assert_eq!(program.matching_loop(j), Some(k));
            if k < j {
                assert_eq!(program.get(k), Some(ExtendedInstr::BaseInstr(Instr::StartLoop)));
                assert_eq!(program.get(j), Some(ExtendedInstr::BaseInstr(Instr::EndLoop)));
            }
        }
    }
}

#[test]
fn current_loop_bounds_finds_innermost() {
    let program = Program::try_from("+[>[<]-]").unwrap();
    let mut ctx = ExecutionContext::new(&program);
    assert_eq!(ctx.current_loop_bounds(), None);
    ctx.step();
    assert_eq!(ctx.current_loop_bounds(), Some((1, 7)));
    ctx.step();
    ctx.step();
    assert_eq!(ctx.program_pointer(), 3);
    assert_eq!(ctx.current_loop_bounds(), Some((3, 5)));
    ctx.step();
    assert_eq!(ctx.program_pointer(), 6);
    assert_eq!(ctx.current_loop_bounds(), Some((1, 7)));
}

#[test]
fn loop_span_tracking_and_cells() {
    let program = Program::try_from("+[->+<]").unwrap();
    let mut ctx = ExecutionContext::new(&program);
    assert_eq!(ctx.total_cells_allocated(), 1);
    ctx.step();
    ctx.step();
    let active = ctx.loop_span_history().active_loop_spans();
    assert!(active[1].is_some());
    assert!(active[0].is_none());
    assert_eq!(ctx.total_cells_allocated(), 2);
    ctx.step();
    ctx.step();
    let open = ctx.loop_span_history().active_loop_spans()[1].clone().unwrap();
    assert_eq!(open.current_memory_pointer, 1);
    assert_eq!(open.max_index, 1);
    assert_eq!(ctx.tape_length(), 2);
    assert_eq!(ctx.total_cells_allocated(), 3);
    ctx.step();
    ctx.step();
    ctx.step();
    let past = ctx.loop_span_history().single_loop_spans();
    assert_eq!(past[1].as_ref().map(|spans| spans.len()), Some(0));
    assert!(past[0].is_none());
    assert!(past[2].is_none());
    assert!(ctx.loop_span_history().active_loop_spans()[1].is_none());
}

#[test]
fn loop_span_reason_holds_equal_spans() {
    let program = Program::try_from("+[-+]").unwrap();
    let mut ctx = ExecutionContext::new(&program);
    loop {
        let (_, status) = ctx.step();
        if let ExecutionStatus::InfiniteLoop(LoopReason::LoopSpan { prior, current }) = status {
            assert!(prior == current);
            assert_eq!(current.displacement(), 0);
            assert_eq!(current.memory_mask(), &[1]);
            break;
        }
        assert_eq!(status, ExecutionStatus::Running);
    }
}

#[test]
fn loop_span_equality_reflexive_symmetric() {
    let a = span(vec![1, 2, 0, 0], 1, 1, 0, 1);
    let b = span(vec![1, 2], 1, 1, 0, 3);
    let c = span(vec![1, 2], 1, 2, 0, 2);
    assert!(a == a);
    assert!(a == b);
    assert!(b == a);
    assert!(a != c);
    assert!(c != a);
    assert!(c.clone() == c);
}

#[test]
fn loop_span_mask_follows_drift() {
    let left = span(vec![5, 0, 7, 0], 2, 1, 1, 2);
    assert_eq!(left.displacement(), -1);
    assert_eq!(left.memory_mask(), &[5, 0, 7]);
    let right = span(vec![0, 3, 4, 0], 0, 1, 0, 1);
    assert_eq!(right.displacement(), 1);
    assert_eq!(right.memory_mask(), &[0, 3, 4, 0]);
    let still = span(vec![9, 3, 4, 8], 2, 2, 1, 2);
    assert_eq!(still.memory_mask(), &[3, 4]);
    assert_eq!(still.total_cells_allocated(), 4);
}

#[test]
fn lexicographic_order_is_an_odometer() {
    assert_eq!(lexiographic_order(0), vec![Vec::<Instr>::new()]);
    assert_eq!(
        lexiographic_order(1),
        vec![
            vec![Instr::Plus],
            vec![Instr::Minus],
            vec![Instr::Left],
            vec![Instr::Right],
            vec![Instr::StartLoop],
            vec![Instr::EndLoop],
        ]
    );
    let two = lexiographic_order(2);
    assert_eq!(two.len(), 36);
    assert_eq!(two[0], vec![Instr::Plus, Instr::Plus]);
    assert_eq!(two[7], vec![Instr::Minus, Instr::Minus]);
    assert_eq!(two[35], vec![Instr::EndLoop, Instr::EndLoop]);
    assert_eq!(lexiographic_order(3).len(), 216);
}

#[test]
fn next_program_carries_and_ends() {
    assert_eq!(
        next_program(&[Instr::Plus, Instr::EndLoop]),
        Some(vec![Instr::Minus, Instr::Plus])
    );
    assert_eq!(next_program(&[Instr::EndLoop, Instr::EndLoop]), None);
    assert_eq!(next_program(&[]), None);
}

#[test]
fn brute_force_keeps_compilable_programs() {
    assert_eq!(brute_force_iterator(0).len(), 1);
    assert_eq!(brute_force_iterator(1).len(), 4);
    let two = brute_force_iterator(2);
    assert_eq!(two.len(), 17);
    assert_eq!(two[0].original_instrs(), &[Instr::Plus, Instr::Plus]);
    assert!(two
        .iter()
        .any(|p| p.original_instrs() == [Instr::StartLoop, Instr::EndLoop]));
    assert_eq!(brute_force_chain(0..3).len(), 22);
    assert_eq!(brute_force_chain(2..2).len(), 0);
}

#[test]
fn history_get_matches_a_fresh_run() {
    let program = Program::try_from("++[->+<]").unwrap();
    let mut history = History::new(&program);
    let data = history.get(5);
    let mut ctx = ExecutionContext::new(&program);
    let mut total = 0;
    let mut last = ExecutionStatus::Running;
    for _ in 0..5 {
        let (steps, status) = ctx.step();
        total += steps;
        last = status;
    }
    assert_eq!(data.real_steps, total);
    assert_eq!(data.status, last);
    assert_eq!(data.exec_ctx.tape(), ctx.tape());
    assert_eq!(data.exec_ctx.program_pointer(), ctx.program_pointer());
    assert!(history.contains(5));
    assert_eq!(history.cached_steps(), 1);
    let earlier = history.get(3);
    assert_eq!(earlier.real_steps, 3);
    assert_eq!(history.cached_steps(), 2);
    assert_eq!(history.get(5).real_steps, total);
    assert_eq!(history.cached_steps(), 2);
    assert_eq!(history.total_cells_allocated(), earlier.exec_ctx.total_cells_allocated() + data.exec_ctx.total_cells_allocated());
}

#[test]
fn history_caches_every_thousandth_step() {
    let program = Program::try_from("+[>+]").unwrap();
    let mut history = History::new(&program);
    history.get(2500);
    assert!(history.contains(1000));
    assert!(history.contains(2000));
    assert!(history.contains(2500));
    assert_eq!(history.cached_steps(), 3);
}

#[test]
fn history_runs_to_loop_exit() {
    let program = Program::try_from("+++[-]>").unwrap();
    let program2 = Program::try_from("++[>+<-]>").unwrap();
    let mut history = History::new(&program2);
    let (data, step) = history.get_after_this_loop(3, 1);
    // From inside the body at step 3, four steps reach the closing bracket.
    assert_eq!(data.exec_ctx.program_pointer(), 7);
    assert_eq!(step, 7);
    assert_eq!(data.real_steps, 7);
    let (_, back) = history.get_after_this_loop(3, -1);
    assert_eq!(back, 0);
    let mut outside = History::new(&program);
    let (data, step) = outside.get_after_this_loop(0, 1);
    assert_eq!(step, 0);
    assert_eq!(data.real_steps, 0);
}

#[test]
fn step_count_stops_at_verdict_or_cap() {
    let halting = Program::try_from("+[-]").unwrap();
    assert_eq!(step_count(&halting, 100), (ExecutionStatus::Halted, Some(4), 1));
    let spinning = Program::try_from("+[]").unwrap();
    let (status, steps, tape) = step_count(&spinning, 100);
    assert!(is_loop_if_nonzero(&status));
    assert_eq!(steps, Some(3));
    assert_eq!(tape, 1);
    let forever = Program::try_from(">+[>+]").unwrap();
    let capped = Program::try_from("+++[-]").unwrap();
    assert_eq!(step_count(&capped, 2), (ExecutionStatus::Running, None, 1));
    assert_eq!(step_count(&capped, 0), (ExecutionStatus::Running, None, 1));
    let (status, _, _) = step_count(&forever, 10_000);
    assert!(is_loop_span(&status));
}

#[test]
fn results_of_one_program() {
    let r = BusyBeaverResults::of_program(Program::try_from("+[-]>").unwrap(), 100);
    assert_eq!(r.busy_beavers.0, 5);
    assert_eq!(r.busy_beavers.1.len(), 1);
    assert_eq!((r.num_halted, r.num_looping, r.unknown_programs.len()), (1, 0, 0));
    assert_eq!(r.max_tape_length, 2);
    let r = BusyBeaverResults::of_program(Program::try_from("+[]").unwrap(), 100);
    assert_eq!((r.num_halted, r.num_looping, r.unknown_programs.len()), (0, 1, 0));
    assert_eq!(r.hardest_to_prove.as_ref().map(|h| h.0), Some(3));
    let r = BusyBeaverResults::of_program(Program::try_from("+++[-]").unwrap(), 2);
    assert_eq!((r.num_halted, r.num_looping, r.unknown_programs.len()), (0, 0, 1));
}

#[test]
fn merge_keeps_best_and_sums_counts() {
    let p = |s: &str| Program::try_from(s).unwrap();
    let a = BusyBeaverResults::of_program(p("+[-]"), 100);
    let b = BusyBeaverResults::of_program(p("-+>+"), 100);
    let c = BusyBeaverResults::of_program(p("+[]"), 100);
    let d = BusyBeaverResults::of_program(p("+++[-]"), 2);
    let ab = BusyBeaverResults::merge(a, b);
    assert_eq!(ab.busy_beavers.0, 4);
    assert_eq!(ab.busy_beavers.1.len(), 2);
    assert_eq!(ab.busy_beavers.1[0].to_source(), "+[-]");
    let all = BusyBeaverResults::merge(BusyBeaverResults::merge(ab, c), d);
    assert_eq!((all.num_halted, all.num_looping, all.unknown_programs.len()), (2, 1, 1));
    assert_eq!(all.max_tape_length, 2);
    assert_eq!(all.hardest_to_prove.as_ref().map(|h| h.1.to_source()), Some("+[]".to_string()));
    let e = BusyBeaverResults::merge(BusyBeaverResults::empty(), BusyBeaverResults::of_program(p(">"), 100));
    assert_eq!(e.busy_beavers.0, 1);
    assert_eq!(e.max_tape_length, 2);
}

#[test]
fn extended_symbols() {
    let program = Program::try_from("+[-][+][]<").unwrap();
    let shown: String = program.extended_instrs().iter().map(|e| e.symbol()).collect();
    assert_eq!(shown, "+⊟⊞L<");
    assert_eq!(Instr::Right.symbol(), ">");
}

#[test]
fn history_is_keyed_by_start_loops() {
    let program = Program::try_from("+[>[-]<[<]]").unwrap();
    let ctx = ExecutionContext::new(&program);
    let past = ctx.loop_span_history().single_loop_spans();
    let keyed: Vec<usize> = (0..past.len()).filter(|&i| past[i].is_some()).collect();
    assert_eq!(keyed, vec![1, 5]);
    assert!(past.iter().flatten().all(|spans| spans.is_empty()));
    assert!(ctx.loop_span_history().active_loop_spans().iter().all(|s| s.is_none()));
}

#[test]
fn instr_try_from_characters_and_bytes() {
    for instr in [
        Instr::Plus,
        Instr::Minus,
        Instr::Left,
        Instr::Right,
        Instr::StartLoop,
        Instr::EndLoop,
    ] {
        let c = Instr::to_string(&[instr]).chars().next().unwrap();
        assert_eq!(Instr::try_from(c), Ok(instr));
        assert_eq!(Instr::try_from(c as u8), Ok(instr));
    }
    assert_eq!(Instr::try_from('a'), Err(()));
    assert_eq!(Instr::try_from(b' '), Err(()));
}
