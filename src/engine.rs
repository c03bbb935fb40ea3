//! The execution engine: one step at a time over the extended instructions,
//! with loop-span tracking that proves non-termination.

use crate::instr::{ExtendedInstr, Instr};
use crate::loop_span::{
    add_saturating, history_cells, history_end, history_end_check, history_left, history_reset,
    history_right, history_start, min_int, opt_left, opt_right, span_wf,
    HistoryView, LoopSpan, LoopSpanHistory, SpanView,
};
use crate::naive::lemma_match_unique;
use crate::program::{
    balanced, bracket_map, is_bracket, is_start, lemma_pairs_nest, lemma_partner, Program,
};
use vstd::prelude::*;

verus! {

/// How the engine found that a program cannot halt.
#[derive(Debug, Clone, PartialEq, Eq)]
pub enum LoopReason {
    /// A `LoopIfNonzero` ran on a nonzero cell.
    LoopIfNonzero,
    /// Two iterations of one repeat construct began in equivalent states.
    LoopSpan { prior: LoopSpan, current: LoopSpan },
}

/// What a step observed.
#[derive(Debug, Clone, PartialEq, Eq)]
pub enum ExecutionStatus {
    /// Not halted, and no non-termination found.
    Running,
    /// The program has halted.
    Halted,
    /// The program cannot halt, for the given reason.
    InfiniteLoop(LoopReason),
}

/// An execution status as a mathematical value.
pub enum StatusView {
    Running,
    Halted,
    LoopIfNonzero,
    LoopSpan(SpanView, SpanView),
}

impl View for ExecutionStatus {
    type V = StatusView;

    open spec fn view(&self) -> StatusView {
        match self {
            ExecutionStatus::Running => StatusView::Running,
            ExecutionStatus::Halted => StatusView::Halted,
            ExecutionStatus::InfiniteLoop(LoopReason::LoopIfNonzero) => StatusView::LoopIfNonzero,
            ExecutionStatus::InfiniteLoop(LoopReason::LoopSpan { prior, current }) => {
                StatusView::LoopSpan(prior@, current@)
            },
        }
    }
}

/// The state of an execution as a mathematical value.
pub struct ContextView {
    /// The tape.
    pub tape: Seq<u8>,
    /// The tape pointer.
    pub ptr: int,
    /// The index of the next extended instruction.
    pub pc: int,
    /// The loop-span tracker.
    pub history: HistoryView,
}

/// The state after the instruction at `s.pc` is done and `pc` has moved on,
/// with the step count and the status that the step reports.
pub open spec fn finish(
    ext: Seq<ExtendedInstr>,
    s: ContextView,
    steps: int,
    found: Option<(SpanView, SpanView)>,
) -> (ContextView, int, StatusView) {
    let next = ContextView { pc: s.pc + 1, ..s };
    let status = match found {
        Some((p, c)) => StatusView::LoopSpan(p, c),
        None => if next.pc >= ext.len() {
            StatusView::Halted
        } else {
            StatusView::Running
        },
    };
    (next, steps, status)
}

/// One step of the engine on the extended program `ext` whose brackets are
/// paired by `matching`: the next state, the number of base instructions
/// it accounts for, and the status reported.
pub open spec fn step_spec(
    ext: Seq<ExtendedInstr>,
    matching: Seq<Option<usize>>,
    s: ContextView,
) -> (ContextView, int, StatusView) {
    if s.pc >= ext.len() {
        (s, 0, StatusView::Halted)
    } else {
        let c = s.tape[s.ptr];
        let h = s.history;
        match ext[s.pc] {
            ExtendedInstr::LoopIfNonzero => if c != 0 {
                (s, 2, StatusView::LoopIfNonzero)
            } else {
                finish(ext, s, 1, None)
            },
            ExtendedInstr::SetToZeroPlus => finish(
                ext,
                ContextView { tape: s.tape.update(s.ptr, 0), ..s },
                1 + 2 * ((256 - c) % 256),
                None,
            ),
            ExtendedInstr::SetToZeroMinus => finish(
                ext,
                ContextView { tape: s.tape.update(s.ptr, 0), ..s },
                1 + 2 * c,
                None,
            ),
            ExtendedInstr::BaseInstr(Instr::Plus) => finish(
                ext,
                ContextView { tape: s.tape.update(s.ptr, ((c + 1) % 256) as u8), ..s },
                1,
                None,
            ),
            ExtendedInstr::BaseInstr(Instr::Minus) => finish(
                ext,
                ContextView { tape: s.tape.update(s.ptr, ((c + 255) % 256) as u8), ..s },
                1,
                None,
            ),
            ExtendedInstr::BaseInstr(Instr::Left) => finish(
                ext,
                ContextView {
                    ptr: if s.ptr > 0 {
                        s.ptr - 1
                    } else {
                        0
                    },
                    history: history_left(h),
                    ..s
                },
                1,
                None,
            ),
            ExtendedInstr::BaseInstr(Instr::Right) => finish(
                ext,
                ContextView {
                    tape: if s.ptr + 1 >= s.tape.len() {
                        s.tape.push(0)
                    } else {
                        s.tape
                    },
                    ptr: s.ptr + 1,
                    history: history_right(h),
                    ..s
                },
                1,
                None,
            ),
            ExtendedInstr::BaseInstr(Instr::StartLoop) => if c == 0 {
                finish(ext, ContextView { pc: matching[s.pc]->0 as int, ..s }, 1, None)
            } else {
                finish(
                    ext,
                    ContextView { history: history_start(h, s.tape, s.ptr, s.pc), ..s },
                    1,
                    None,
                )
            },
            ExtendedInstr::BaseInstr(Instr::EndLoop) => {
                let k = matching[s.pc]->0 as int;
                if c != 0 {
                    finish(
                        ext,
                        ContextView {
                            pc: k,
                            history: history_start(history_end(h, k), s.tape, s.ptr, k),
                            ..s
                        },
                        1,
                        history_end_check(h, k),
                    )
                } else {
                    finish(
                        ext,
                        ContextView { history: history_reset(history_end(h, k), k), ..s },
                        1,
                        None,
                    )
                }
            },
        }
    }
}

/// The state after `n` steps.
pub open spec fn run_spec(
    ext: Seq<ExtendedInstr>,
    matching: Seq<Option<usize>>,
    s: ContextView,
    n: nat,
) -> ContextView
    decreases n,
{
    if n == 0 {
        s
    } else {
        run_spec(ext, matching, step_spec(ext, matching, s).0, (n - 1) as nat)
    }
}

/// The base instructions that `n` engine steps account for.
pub open spec fn run_count(
    ext: Seq<ExtendedInstr>,
    matching: Seq<Option<usize>>,
    s: ContextView,
    n: nat,
) -> int
    decreases n,
{
    if n == 0 {
        0
    } else {
        step_spec(ext, matching, s).1 + run_count(ext, matching, step_spec(ext, matching, s).0, (n - 1) as nat)
    }
}

/// Running one step more: the state and the count after `n + 1` steps
/// follow from those after `n`.
pub proof fn lemma_run_succ(
    ext: Seq<ExtendedInstr>,
    matching: Seq<Option<usize>>,
    s: ContextView,
    n: nat,
)
    ensures
        run_spec(ext, matching, s, n + 1) == step_spec(ext, matching, run_spec(ext, matching, s, n)).0,
        run_count(ext, matching, s, n + 1) == run_count(ext, matching, s, n) + step_spec(
            ext,
            matching,
            run_spec(ext, matching, s, n),
        ).1,
        run_count(ext, matching, s, n) >= 0,
    decreases n,
{
    let t = step_spec(ext, matching, s).0;
    assert(run_spec(ext, matching, s, n + 1) == run_spec(ext, matching, t, n));
    assert(run_count(ext, matching, s, n + 1) == step_spec(ext, matching, s).1 + run_count(
        ext,
        matching,
        t,
        n,
    ));
    if n > 0 {
        lemma_run_succ(ext, matching, t, (n - 1) as nat);
        assert(run_spec(ext, matching, s, n) == run_spec(ext, matching, t, (n - 1) as nat));
    }
}

/// The state in which every run of the extended program `ext` begins: a tape
/// of one zero cell, both pointers at 0, no span open, and an empty history
/// at each `StartLoop`.
pub open spec fn fresh_view(ext: Seq<ExtendedInstr>) -> ContextView {
    ContextView {
        tape: seq![0u8],
        ptr: 0,
        pc: 0,
        history: HistoryView {
            active: Seq::new(ext.len(), |i: int| None::<SpanView>),
            past: Seq::new(
                ext.len(),
                |i: int|
                    if is_start(ext, i) {
                        Some(Seq::<SpanView>::empty())
                    } else {
                        None
                    },
            ),
        },
    }
}

/// An execution state that the engine can reach: a nonempty tape with the
/// pointer on it, `pc` at most one past the end, a span open for exactly
/// the loops whose body `pc` is in, and every open span at the pointer.
pub open spec fn context_wf(
    ext: Seq<ExtendedInstr>,
    matching: Seq<Option<usize>>,
    s: ContextView,
) -> bool {
    &&& s.tape.len() >= 1
    &&& 0 <= s.ptr < s.tape.len()
    &&& 0 <= s.pc <= ext.len()
    &&& s.history.active.len() == ext.len()
    &&& s.history.past.len() == ext.len()
    &&& forall|k: int| 0 <= k < ext.len() ==> (#[trigger] s.history.past[k] is Some <==> is_start(ext, k))
    &&& forall|k: int|
        0 <= k < ext.len() && #[trigger] s.history.active[k] is Some ==> span_wf(
            s.history.active[k]->0,
        )
    &&& forall|k: int, j: int|
        0 <= k < ext.len() && #[trigger] s.history.past[k] is Some && 0 <= j < s.history.past[k]->0.len()
            ==> span_wf(#[trigger] s.history.past[k]->0[j])
    &&& forall|k: int|
        0 <= k < ext.len() && #[trigger] s.history.active[k] is Some
            ==> s.history.active[k]->0.current == s.ptr
    &&& forall|k: int|
        0 <= k < ext.len() ==> (#[trigger] s.history.active[k] is Some <==> (is_start(ext, k)
            && k < s.pc <= matching[k]->0))
}

/// A step from a reachable state leads to a reachable state.
pub proof fn lemma_step_preserves_wf(
    ext: Seq<ExtendedInstr>,
    matching: Seq<Option<usize>>,
    s: ContextView,
)
    requires
        balanced(ext),
        bracket_map(ext, matching),
        context_wf(ext, matching, s),
    ensures
        context_wf(ext, matching, step_spec(ext, matching, s).0),
{
    if s.pc < ext.len() {
        let pc = s.pc;
        let t = step_spec(ext, matching, s).0;
        let h = s.history;
        let th = t.history;
        match ext[pc] {
            ExtendedInstr::BaseInstr(Instr::StartLoop) => {
                lemma_partner(ext, matching, pc);
                let e0 = matching[pc]->0 as int;
                assert forall|k: int| 0 <= k < ext.len() implies (#[trigger] th.active[k] is Some
                    <==> (is_start(ext, k) && k < t.pc <= matching[k]->0)) by {
                    if is_start(ext, k) && k != pc {
                        lemma_partner(ext, matching, k);
                        let e = matching[k]->0 as int;
                        if k < pc && pc < e {
                            lemma_pairs_nest(ext, k, e, pc, e0);
                        }
                        if pc < k && k < e0 {
                            lemma_pairs_nest(ext, pc, e0, k, e);
                        }
                    }
                }
            },
            ExtendedInstr::BaseInstr(Instr::EndLoop) => {
                lemma_partner(ext, matching, pc);
                let k0 = matching[pc]->0 as int;
                lemma_partner(ext, matching, k0);
                assert forall|k: int| 0 <= k < ext.len() implies (#[trigger] th.active[k] is Some
                    <==> (is_start(ext, k) && k < t.pc <= matching[k]->0)) by {
                    if is_start(ext, k) && k != k0 {
                        lemma_partner(ext, matching, k);
                        let e = matching[k]->0 as int;
                        if k0 < k && k < pc {
                            lemma_pairs_nest(ext, k0, pc, k, e);
                        }
                        if k < k0 && k0 < e {
                            lemma_pairs_nest(ext, k, e, k0, pc);
                        }
                    }
                }
                assert forall|k: int|
                    0 <= k < ext.len() && #[trigger] th.active[k] is Some implies th.active[k]->0.current
                    == t.ptr by {
                    if k != k0 {
                        assert(h.active[k] is Some);
                    }
                }
            },
            _ => {
                assert forall|k: int| 0 <= k < ext.len() implies (#[trigger] th.active[k] is Some
                    <==> (is_start(ext, k) && k < t.pc <= matching[k]->0)) by {
                    assert(th.active[k] is Some <==> h.active[k] is Some);
                    if is_start(ext, k) {
                        lemma_partner(ext, matching, k);
                    }
                }
            },
        }
        lemma_step_keeps_spans_wf(ext, matching, s);
    }
}

/// Spans open or completed after a step still satisfy `span_wf`.
proof fn lemma_step_keeps_spans_wf(
    ext: Seq<ExtendedInstr>,
    matching: Seq<Option<usize>>,
    s: ContextView,
)
    requires
        bracket_map(ext, matching),
        context_wf(ext, matching, s),
        s.pc < ext.len(),
    ensures
        forall|k: int|
            0 <= k < ext.len() && #[trigger] step_spec(ext, matching, s).0.history.active[k] is Some
                ==> span_wf(step_spec(ext, matching, s).0.history.active[k]->0),
        forall|k: int, j: int|
            0 <= k < ext.len() && #[trigger] step_spec(ext, matching, s).0.history.past[k] is Some
                && 0 <= j < step_spec(ext, matching, s).0.history.past[k]->0.len() ==> span_wf(
                #[trigger] step_spec(ext, matching, s).0.history.past[k]->0[j],
            ),
{
    let h = s.history;
    let th = step_spec(ext, matching, s).0.history;
    let pc = s.pc;
    if is_bracket(ext, pc) {
        lemma_partner(ext, matching, pc);
    }
    assert forall|k: int|
        0 <= k < ext.len() && #[trigger] th.active[k] is Some implies span_wf(th.active[k]->0) by {
        if h.active[k] is Some {
            assert(span_wf(h.active[k]->0));
        }
        match ext[pc] {
            ExtendedInstr::BaseInstr(Instr::Left) => {
                assert(th.active[k] == opt_left(h.active[k]));
            },
            ExtendedInstr::BaseInstr(Instr::Right) => {
                assert(th.active[k] == opt_right(h.active[k]));
            },
            _ => {},
        }
    }
    if ext[s.pc] == ExtendedInstr::BaseInstr(Instr::EndLoop) {
        let k0 = matching[s.pc]->0 as int;
        assert forall|k: int, j: int|
            0 <= k < ext.len() && #[trigger] th.past[k] is Some && 0 <= j < th.past[k]->0.len()
                implies span_wf(#[trigger] th.past[k]->0[j]) by {
            if k != k0 {
                assert(th.past[k] == h.past[k]);
                assert(span_wf(h.past[k]->0[j]));
            } else if s.tape[s.ptr] != 0 {
                if j < h.past[k]->0.len() {
                    assert(span_wf(h.past[k]->0[j]));
                } else {
                    lemma_partner(ext, matching, k);
                    lemma_match_unique(ext, k, matching[k]->0 as int, pc);
                    assert(h.active[k] is Some);
                    assert(span_wf(h.active[k]->0));
                }
            }
        }
    } else {
        assert(th.past == h.past);
    }
}

/// A program being run: its tape, tape pointer, next instruction, and
/// loop-span tracker.
#[derive(Debug)]
pub struct ExecutionContext {
    memory: Vec<u8>,
    memory_pointer: usize,
    program: Program,
    program_pointer: usize,
    loop_span_history: LoopSpanHistory,
}

impl View for ExecutionContext {
    type V = ContextView;

    closed spec fn view(&self) -> ContextView {
        ContextView {
            tape: self.memory@,
            ptr: self.memory_pointer as int,
            pc: self.program_pointer as int,
            history: self.loop_span_history@,
        }
    }
}

impl Clone for ExecutionContext {
    fn clone(&self) -> (r: ExecutionContext)
        ensures
            r@ == self@,
            r.code().original() == self.code().original(),
            r.ext() == self.ext(),
            r.pairs() == self.pairs(),
    {
        let memory = self.memory.clone();
        assert(memory@ =~= self.memory@);
        ExecutionContext {
            memory,
            memory_pointer: self.memory_pointer,
            program: self.program.clone(),
            program_pointer: self.program_pointer,
            loop_span_history: self.loop_span_history.clone(),
        }
    }
}

impl ExecutionContext {
    /// The program being run.
    pub closed spec fn code(&self) -> Program {
        self.program
    }

    /// The extended instructions of the program being run.
    pub open spec fn ext(&self) -> Seq<ExtendedInstr> {
        self.code().extended()
    }

    /// The bracket pairing of the program being run.
    pub open spec fn pairs(&self) -> Seq<Option<usize>> {
        self.code().matching()
    }

    /// A state that the engine can reach.
    pub open spec fn wf(&self) -> bool {
        self.code().wf() && context_wf(self.ext(), self.pairs(), self@)
    }

    /// A fresh run of `program` on `memory`, with both pointers at 0.
    pub fn with_memory(program: Program, memory: Vec<u8>) -> (r: ExecutionContext)
        requires
            memory@.len() >= 1,
        ensures
            r.wf(),
            r.code() == program,
            r@.tape == memory@,
            r@.ptr == 0,
            r@.pc == 0,
            r@.history.active == fresh_view(program.extended()).history.active,
            r@.history.past == fresh_view(program.extended()).history.past,
    {
        proof {
            use_type_invariant(&program);
        }
        let loop_span_history = LoopSpanHistory::new(&program);
        ExecutionContext {
            memory,
            memory_pointer: 0,
            program,
            program_pointer: 0,
            loop_span_history,
        }
    }

    /// A fresh run of `program` on a tape of one zero cell.
    pub fn new(program: &Program) -> (r: ExecutionContext)
        ensures
            r.wf(),
            r.code().original() == program.original(),
            r.code().extended() == program.extended(),
            r.code().matching() == program.matching(),
            r@.tape == seq![0u8],
            r@.ptr == 0,
            r@.pc == 0,
            r@.history.active == fresh_view(program.extended()).history.active,
            r@.history.past == fresh_view(program.extended()).history.past,
    {
        let mut memory: Vec<u8> = Vec::new();
        memory.push(0);
        assert(memory@ =~= seq![0u8]);
        ExecutionContext::with_memory(program.clone(), memory)
    }

    /// Runs one extended instruction: returns how many base instructions it
    /// accounts for, and the status observed.
    pub fn step(&mut self) -> (r: (usize, ExecutionStatus))
        requires
            old(self).wf(),
        ensures
            final(self).wf(),
            final(self).code() == old(self).code(),
            (final(self)@, r.0 as int, r.1@) == step_spec(old(self).ext(), old(self).pairs(), old(self)@),
            final(self)@.tape.len() >= old(self)@.tape.len(),
    {
        let ghost s0 = self@;
        let ghost ext = self.ext();
        let ghost pairs = self.pairs();
        proof {
            use_type_invariant(&self.program);
            lemma_step_preserves_wf(ext, pairs, s0);
        }
        let instr = match self.program.get(self.program_pointer) {
            Some(instr) => instr,
            None => {
                return (0, ExecutionStatus::Halted);
            },
        };
        let n = self.program.len();
        let tape_len = self.memory.len();
        let ptr = self.memory_pointer;
        let cell = self.memory[ptr];
        let mut found: Option<(LoopSpan, LoopSpan)> = None;
        let steps: usize;
        match instr {
            ExtendedInstr::LoopIfNonzero => {
                if cell != 0 {
                    return (2, ExecutionStatus::InfiniteLoop(LoopReason::LoopIfNonzero));
                }
                steps = 1;
            },
            ExtendedInstr::SetToZeroPlus => {
                steps = 1 + 2 * ((256 - cell as usize) % 256);
                self.memory.set(ptr, 0);
            },
            ExtendedInstr::SetToZeroMinus => {
                steps = 1 + 2 * (cell as usize);
                self.memory.set(ptr, 0);
            },
            ExtendedInstr::BaseInstr(Instr::Plus) => {
                steps = 1;
                self.memory.set(ptr, if cell == 255 { 0 } else { cell + 1 });
            },
            ExtendedInstr::BaseInstr(Instr::Minus) => {
                steps = 1;
                self.memory.set(ptr, if cell == 0 { 255 } else { cell - 1 });
            },
            ExtendedInstr::BaseInstr(Instr::Left) => {
                steps = 1;
                self.loop_span_history.record_left();
                self.memory_pointer = if ptr > 0 { ptr - 1 } else { 0 };
            },
            ExtendedInstr::BaseInstr(Instr::Right) => {
                steps = 1;
                assert(ptr < tape_len);
                self.loop_span_history.record_right();
                self.memory_pointer = ptr + 1;
                if self.memory_pointer >= self.memory.len() {
                    self.memory.push(0);
                }
            },
            ExtendedInstr::BaseInstr(Instr::StartLoop) => {
                steps = 1;
                let pc = self.program_pointer;
                proof {
                    lemma_partner(ext, pairs, pc as int);
                }
                if cell == 0 {
                    self.program_pointer = self.program.matching_loop(pc).unwrap();
                } else {
                    self.loop_span_history.start_recording_loop_span(
                        self.memory.clone(),
                        ptr,
                        pc,
                    );
                }
            },
            ExtendedInstr::BaseInstr(Instr::EndLoop) => {
                steps = 1;
                let pc = self.program_pointer;
                proof {
                    lemma_partner(ext, pairs, pc as int);
                }
                let start_loop = self.program.matching_loop(pc).unwrap();
                found = self.loop_span_history.end_recording_loop_span(start_loop);
                if cell != 0 {
                    self.loop_span_history.start_recording_loop_span(
                        self.memory.clone(),
                        ptr,
                        start_loop,
                    );
                    self.program_pointer = start_loop;
                } else {
                    found = None;
                    self.loop_span_history.reset_past_loop_spans(start_loop);
                }
            },
        }
        assert(self.program_pointer < n);
        self.program_pointer = self.program_pointer + 1;
        let status = match found {
            Some((prior, current)) => ExecutionStatus::InfiniteLoop(
                LoopReason::LoopSpan { prior, current },
            ),
            None => if self.program_pointer >= self.program.len() {
                ExecutionStatus::Halted
            } else {
                ExecutionStatus::Running
            },
        };
        (steps, status)
    }

    /// The innermost loop whose brackets enclose `pc`: the `StartLoop` and
    /// `EndLoop` indices of the tightest matched pair with `start <= pc <= end`,
    /// or `None` when there is no such pair.
    pub fn current_loop_bounds(&self) -> (r: Option<(usize, usize)>)
        requires
            self.wf(),
        ensures
            r is None <==> !exists|s: int, e: int| #[trigger]
                is_pair(self.ext(), self.pairs(), s, e) && s <= self@.pc <= e,
            r matches Some((s, e)) ==> {
                &&& is_pair(self.ext(), self.pairs(), s as int, e as int)
                &&& s <= self@.pc <= e
                &&& forall|s2: int, e2: int|
                    #[trigger] is_pair(self.ext(), self.pairs(), s2, e2) && s2 <= self@.pc <= e2
                        ==> s2 <= s && e <= e2
            },
    {
        let ghost ext = self.ext();
        let ghost pairs = self.pairs();
        let ghost pc = self@.pc;
        proof {
            use_type_invariant(&self.program);
        }
        let n = self.program.len();
        let mut best: Option<(usize, usize)> = None;
        let mut k: usize = 0;
        while k < n
            invariant
                n == ext.len(),
                k <= n,
                ext == self.ext(),
                pairs == self.pairs(),
                pc == self@.pc,
                self.wf(),
                best is None ==> forall|s: int, e: int|
                    #[trigger] is_pair(ext, pairs, s, e) && s <= pc <= e ==> !(s < k || e < k),
                best matches Some((bs, be)) ==> {
                    &&& is_pair(ext, pairs, bs as int, be as int)
                    &&& bs <= pc <= be
                    &&& forall|s2: int, e2: int|
                        #[trigger] is_pair(ext, pairs, s2, e2) && s2 <= pc <= e2 && (s2 < k || e2
                            < k) ==> s2 <= bs && be <= e2
                },
            decreases n - k,
        {
            let ghost old_best = best;
            let ghost (ob_start, ob_end): (int, int) = match best {
                Some((a, b)) => (a as int, b as int),
                None => (0, 0),
            };
            match self.program.matching_loop(k) {
                Some(j) => {
                    let start = if k < j { k } else { j };
                    let end = if k < j { j } else { k };
                    proof {
                        lemma_partner(ext, pairs, k as int);
                        assert(is_pair(ext, pairs, start as int, end as int));
                    }
                    if start <= self.program_pointer && self.program_pointer <= end {
                        match best {
                            Some((best_start, best_end)) => {
                                if best_start < start && end < best_end {
                                    best = Some((start, end));
                                }
                                proof {
                                    lemma_enclosing_pairs_nest(
                                        ext,
                                        pairs,
                                        best_start as int,
                                        best_end as int,
                                        start as int,
                                        end as int,
                                        pc,
                                    );
                                }
                            },
                            None => {
                                best = Some((start, end));
                            },
                        }
                    }
                    proof {
                        assert forall|s2: int, e2: int|
                            #[trigger] is_pair(ext, pairs, s2, e2) && s2 <= pc <= e2 && (s2 < k + 1
                                || e2 < k + 1) && !(s2 < k || e2 < k) implies s2 == start && e2
                            == end by {
                            lemma_partner(ext, pairs, s2);
                        }
                        if let Some((bs, be)) = best {
                            assert forall|s2: int, e2: int|
                                #[trigger] is_pair(ext, pairs, s2, e2) && s2 <= pc <= e2 && (s2
                                    < k + 1 || e2 < k + 1) implies s2 <= bs && be <= e2 by {
                                if old_best is Some {
                                    lemma_enclosing_pairs_nest(
                                        ext,
                                        pairs,
                                        ob_start,
                                        ob_end,
                                        s2,
                                        e2,
                                        pc,
                                    );
                                    lemma_enclosing_pairs_nest(
                                        ext,
                                        pairs,
                                        bs as int,
                                        be as int,
                                        s2,
                                        e2,
                                        pc,
                                    );
                                }
                            }
                        }
                    }
                },
                None => {
                    proof {
                        assert forall|s2: int, e2: int|
                            #[trigger] is_pair(ext, pairs, s2, e2) && s2 <= pc <= e2 && (s2 < k + 1
                                || e2 < k + 1) implies (s2 < k || e2 < k) by {
                            lemma_partner(ext, pairs, s2);
                        }
                    }
                },
            }
            k = k + 1;
        }
        best
    }

    /// The index of the next extended instruction.
    pub fn program_pointer(&self) -> (r: usize)
        ensures
            r == self@.pc,
    {
        self.program_pointer
    }

    /// The tape pointer.
    pub fn memory_pointer(&self) -> (r: usize)
        ensures
            r == self@.ptr,
    {
        self.memory_pointer
    }

    /// The tape.
    pub fn tape(&self) -> (r: &[u8])
        ensures
            r@ == self@.tape,
    {
        self.memory.as_slice()
    }

    /// The program being run.
    pub fn program(&self) -> (r: &Program)
        ensures
            *r == self.code(),
    {
        &self.program
    }

    /// The loop-span tracker.
    pub fn loop_span_history(&self) -> (r: &LoopSpanHistory)
        ensures
            r@ == self@.history,
    {
        &self.loop_span_history
    }

    /// Tape cells held by the tape and by every loop-span snapshot, or
    /// `usize::MAX` if more.
    pub fn total_cells_allocated(&self) -> (r: usize)
        ensures
            r == min_int(self@.tape.len() + history_cells(self@.history), usize::MAX as int),
    {
        add_saturating(self.memory.len(), self.loop_span_history.total_cells_allocated())
    }

    /// The number of tape cells.
    pub fn tape_length(&self) -> (r: usize)
        ensures
            r == self@.tape.len(),
    {
        self.memory.len()
    }
}

/// `s..=e` is a matched bracket pair, `StartLoop` first.
pub open spec fn is_pair(ext: Seq<ExtendedInstr>, pairs: Seq<Option<usize>>, s: int, e: int) -> bool {
    0 <= s < e < ext.len() && pairs[s] is Some && pairs[s]->0 as int == e
}

/// Two matched pairs that both enclose `pc` are nested, the tighter one
/// starting later.
proof fn lemma_enclosing_pairs_nest(
    ext: Seq<ExtendedInstr>,
    pairs: Seq<Option<usize>>,
    s1: int,
    e1: int,
    s2: int,
    e2: int,
    pc: int,
)
    requires
        bracket_map(ext, pairs),
        is_pair(ext, pairs, s1, e1),
        is_pair(ext, pairs, s2, e2),
        s1 <= pc <= e1,
        s2 <= pc <= e2,
    ensures
        s1 < s2 ==> e2 < e1,
        s2 < s1 ==> e1 < e2,
        s1 == s2 ==> e1 == e2,
{
    assert(pairs[s1] is Some && pairs[s2] is Some);
    lemma_partner(ext, pairs, s1);
    lemma_partner(ext, pairs, s2);
    if s1 < s2 {
        lemma_pairs_nest(ext, s1, e1, s2, e2);
    }
    if s2 < s1 {
        lemma_pairs_nest(ext, s2, e2, s1, e1);
    }
}

/// A step never shrinks the tape, and neither does any number of steps.
pub proof fn lemma_tape_never_shrinks(
    ext: Seq<ExtendedInstr>,
    matching: Seq<Option<usize>>,
    s: ContextView,
    n: nat,
)
    requires
        balanced(ext),
        bracket_map(ext, matching),
        context_wf(ext, matching, s),
    ensures
        step_spec(ext, matching, s).0.tape.len() >= s.tape.len(),
        run_spec(ext, matching, s, n).tape.len() >= s.tape.len(),
    decreases n,
{
    lemma_step_preserves_wf(ext, matching, s);
    if n > 0 {
        lemma_tape_never_shrinks(ext, matching, step_spec(ext, matching, s).0, (n - 1) as nat);
    }
}

/// Once a step reports `Halted`, every later step reports `Halted`,
/// accounts for no instruction, and changes nothing.
pub proof fn lemma_halted_is_sticky(
    ext: Seq<ExtendedInstr>,
    matching: Seq<Option<usize>>,
    s: ContextView,
    n: nat,
)
    requires
        step_spec(ext, matching, s).2 == StatusView::Halted,
    ensures
        ({
            let t = step_spec(ext, matching, s).0;
            &&& run_spec(ext, matching, t, n) == t
            &&& step_spec(ext, matching, run_spec(ext, matching, t, n)) == (t, 0int, StatusView::Halted)
        }),
    decreases n,
{
    let t = step_spec(ext, matching, s).0;
    assert(t.pc >= ext.len());
    assert(step_spec(ext, matching, t) == (t, 0int, StatusView::Halted));
    if n > 0 {
        lemma_halted_is_sticky(ext, matching, s, (n - 1) as nat);
        lemma_run_fixed_point(ext, matching, t, n);
    }
}

/// A state that a step leaves unchanged stays unchanged for any number of steps.
proof fn lemma_run_fixed_point(
    ext: Seq<ExtendedInstr>,
    matching: Seq<Option<usize>>,
    t: ContextView,
    n: nat,
)
    requires
        step_spec(ext, matching, t).0 == t,
    ensures
        run_spec(ext, matching, t, n) == t,
    decreases n,
{
    if n > 0 {
        lemma_run_fixed_point(ext, matching, t, (n - 1) as nat);
    }
}

/// A `LoopIfNonzero` verdict leaves the state as it was, so the engine
/// repeats it at every later step and never reports `Halted`.
pub proof fn lemma_loop_if_nonzero_repeats(
    ext: Seq<ExtendedInstr>,
    matching: Seq<Option<usize>>,
    s: ContextView,
    n: nat,
)
    requires
        step_spec(ext, matching, s).2 == StatusView::LoopIfNonzero,
    ensures
        run_spec(ext, matching, s, n) == s,
        step_spec(ext, matching, run_spec(ext, matching, s, n)) == (s, 2int, StatusView::LoopIfNonzero),
{
    assert(step_spec(ext, matching, s).0 == s);
    lemma_run_fixed_point(ext, matching, s, n);
}

} // verus!
