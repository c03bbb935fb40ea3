//! Snapshots of one program's run at chosen step numbers, so that a viewer
//! can move backwards and forwards through the run without starting over.

use crate::engine::{
    fresh_view, is_pair, lemma_run_succ, run_count, run_spec, step_spec, ExecutionContext,
    ExecutionStatus, LoopReason, StatusView,
};
use crate::loop_span::{add_saturating, history_cells, min_int};
use crate::program::Program;
use vstd::prelude::*;

verus! {

/// The status that step `n` of a run reports; `Running` before the first step.
pub open spec fn status_after(ext: Seq<crate::instr::ExtendedInstr>, m: Seq<Option<usize>>, n: nat) -> StatusView {
    if n == 0 {
        StatusView::Running
    } else {
        step_spec(ext, m, run_spec(ext, m, fresh_view(ext), (n - 1) as nat)).2
    }
}

/// `a + d` held within `0..=usize::MAX`.
pub open spec fn clamp_add(a: int, d: int) -> int {
    if a + d < 0 {
        0
    } else if a + d > usize::MAX {
        usize::MAX as int
    } else {
        a + d
    }
}

/// `s` moved by `d`, `k` times, each time held within `0..=usize::MAX`.
pub open spec fn moved(s: int, d: int, k: nat) -> int
    decreases k,
{
    if k == 0 {
        s
    } else {
        clamp_add(moved(s, d, (k - 1) as nat), d)
    }
}

/// Some bracket pair encloses the program pointer after `n` steps of `p`.
pub open spec fn encloses_some(p: Program, n: nat) -> bool {
    let pc = run_spec(p.extended(), p.matching(), fresh_view(p.extended()), n).pc;
    exists|s: int, e: int| #[trigger] is_pair(p.extended(), p.matching(), s, e) && s <= pc <= e
}

/// `(bs, be)` is the tightest bracket pair around the program pointer after
/// `n` steps of `p`.
pub open spec fn tightest_at(p: Program, n: nat, bs: int, be: int) -> bool {
    let pc = run_spec(p.extended(), p.matching(), fresh_view(p.extended()), n).pc;
    &&& is_pair(p.extended(), p.matching(), bs, be)
    &&& bs <= pc <= be
    &&& forall|s2: int, e2: int|
        #[trigger] is_pair(p.extended(), p.matching(), s2, e2) && s2 <= pc <= e2 ==> s2 <= bs
            && be <= e2
}

/// Running on from `step`, step `j` ends the run: the program pointer is
/// outside `bs..be`, or the label moved down has reached 0.
pub open spec fn stops(p: Program, step: nat, d: int, bs: int, be: int, j: nat) -> bool {
    let pc = run_spec(p.extended(), p.matching(), fresh_view(p.extended()), step + j).pc;
    !(bs <= pc < be) || (moved(step as int, d, j) == 0 && d < 0)
}

/// `a + d`, held within `0..=usize::MAX`.
pub fn add_signed_saturating(a: usize, d: isize) -> (r: usize)
    ensures
        r == clamp_add(a as int, d as int),
{
    if d >= 0 {
        let du = d as usize;
        if a <= usize::MAX - du {
            a + du
        } else {
            usize::MAX
        }
    } else {
        let magnitude = (-(d + 1)) as usize + 1;
        if a >= magnitude {
            a - magnitude
        } else {
            0
        }
    }
}

fn clone_status(s: &ExecutionStatus) -> (r: ExecutionStatus)
    ensures
        r@ == s@,
{
    match s {
        ExecutionStatus::Running => ExecutionStatus::Running,
        ExecutionStatus::Halted => ExecutionStatus::Halted,
        ExecutionStatus::InfiniteLoop(LoopReason::LoopIfNonzero) => ExecutionStatus::InfiniteLoop(
            LoopReason::LoopIfNonzero,
        ),
        ExecutionStatus::InfiniteLoop(LoopReason::LoopSpan { prior, current }) => {
            ExecutionStatus::InfiniteLoop(
                LoopReason::LoopSpan { prior: prior.clone(), current: current.clone() },
            )
        },
    }
}

/// A run of a program after some number of steps, with the base
/// instructions accounted for so far and the last status reported.
#[derive(Debug)]
pub struct HistoryData {
    pub real_steps: usize,
    pub status: ExecutionStatus,
    pub exec_ctx: ExecutionContext,
}

impl HistoryData {
    /// This is the run of `program` after exactly `n` steps.
    pub open spec fn at_step(&self, program: Program, n: nat) -> bool {
        let ext = program.extended();
        let m = program.matching();
        &&& self.exec_ctx.wf()
        &&& self.exec_ctx.ext() == ext
        &&& self.exec_ctx.pairs() == m
        &&& self.exec_ctx@ == run_spec(ext, m, fresh_view(ext), n)
        &&& self.real_steps == min_int(
            run_count(ext, m, fresh_view(ext), n),
            usize::MAX as int,
        )
        &&& self.status@ == status_after(ext, m, n)
    }

    /// The run of `program` before its first step.
    pub fn new(program: &Program) -> (r: HistoryData)
        ensures
            r.at_step(*program, 0),
    {
        let exec_ctx = ExecutionContext::new(program);
        assert(exec_ctx@ =~= fresh_view(program.extended()));
        HistoryData { real_steps: 0, status: ExecutionStatus::Running, exec_ctx }
    }

    /// Runs one step, adding what it accounts for (saturating) and keeping its status.
    pub fn step(&mut self)
        requires
            old(self).exec_ctx.wf(),
        ensures
            final(self).exec_ctx.wf(),
            final(self).exec_ctx.ext() == old(self).exec_ctx.ext(),
            final(self).exec_ctx.pairs() == old(self).exec_ctx.pairs(),
            ({
                let (t, c, st) = step_spec(
                    old(self).exec_ctx.ext(),
                    old(self).exec_ctx.pairs(),
                    old(self).exec_ctx@,
                );
                &&& final(self).exec_ctx@ == t
                &&& final(self).real_steps == min_int(old(self).real_steps + c, usize::MAX as int)
                &&& final(self).status@ == st
            }),
    {
        let (delta, new_status) = self.exec_ctx.step();
        self.real_steps = add_saturating(self.real_steps, delta);
        self.status = new_status;
    }

    /// A copy of this snapshot.
    pub fn duplicate(&self) -> (r: HistoryData)
        ensures
            r.real_steps == self.real_steps,
            r.status@ == self.status@,
            r.exec_ctx@ == self.exec_ctx@,
            r.exec_ctx.code().original() == self.exec_ctx.code().original(),
            r.exec_ctx.ext() == self.exec_ctx.ext(),
            r.exec_ctx.pairs() == self.exec_ctx.pairs(),
    {
        HistoryData {
            real_steps: self.real_steps,
            status: clone_status(&self.status),
            exec_ctx: self.exec_ctx.clone(),
        }
    }
}

/// Runs `data` one step further, from step `n` to step `n + 1` of the run.
fn advance(data: &mut HistoryData, program: Ghost<Program>, n: Ghost<nat>)
    requires
        old(data).at_step(program@, n@),
    ensures
        final(data).at_step(program@, n@ + 1),
{
    let ghost ext = program@.extended();
    let ghost m = program@.matching();
    proof {
        lemma_run_succ(ext, m, fresh_view(ext), n@);
    }
    data.step();
}

/// Tape cells held by a snapshot, or `usize::MAX` if more.
pub open spec fn snapshot_cells(d: HistoryData) -> int {
    min_int(d.exec_ctx@.tape.len() + history_cells(d.exec_ctx@.history), usize::MAX as int)
}

/// Tape cells held by all the snapshots of a cache, before saturation.
pub open spec fn cached_cells(s: Seq<(usize, HistoryData)>) -> int
    decreases s.len(),
{
    if s.len() == 0 {
        0
    } else {
        cached_cells(s.drop_last()) + snapshot_cells(s.last().1)
    }
}

proof fn lemma_cached_cells_insert(s: Seq<(usize, HistoryData)>, i: int, x: (usize, HistoryData))
    requires
        0 <= i <= s.len(),
    ensures
        cached_cells(s.insert(i, x)) == cached_cells(s) + snapshot_cells(x.1),
    decreases s.len(),
{
    if i == s.len() {
        assert(s.insert(i, x).drop_last() =~= s);
    } else {
        lemma_cached_cells_insert(s.drop_last(), i, x);
        assert(s.insert(i, x).drop_last() =~= s.drop_last().insert(i, x));
    }
}

/// Snapshots of one program's run, keyed by step number.
pub struct History {
    history: Vec<(usize, HistoryData)>,
    program: Program,
    cells_allocated: usize,
}

impl History {
    /// The program whose run is cached.
    pub closed spec fn program_spec(&self) -> Program {
        self.program
    }

    /// The cached step numbers, in increasing order.
    pub closed spec fn steps(&self) -> Seq<usize> {
        self.history@.map_values(|e: (usize, HistoryData)| e.0)
    }

    /// Step numbers strictly increase; each snapshot is the run after its
    /// step number; the cell count is the saturated total over snapshots.
    pub closed spec fn wf(&self) -> bool {
        &&& forall|i: int, j: int|
            0 <= i < j < self.history@.len() ==> (#[trigger] self.history@[i]).0
                < (#[trigger] self.history@[j]).0
        &&& forall|i: int|
            0 <= i < self.history@.len() ==> (#[trigger] self.history@[i]).1.at_step(
                self.program,
                self.history@[i].0 as nat,
            )
        &&& self.cells_allocated == min_int(cached_cells(self.history@), usize::MAX as int)
    }

    /// An empty cache for the run of `program`.
    pub fn new(program: &Program) -> (r: History)
        ensures
            r.wf(),
            r.program_spec().original() == program.original(),
            r.program_spec().extended() == program.extended(),
            r.program_spec().matching() == program.matching(),
            r.steps().len() == 0,
    {
        let r = History { history: Vec::new(), program: program.clone(), cells_allocated: 0 };
        assert(r.steps() =~= Seq::<usize>::empty());
        r
    }

    /// Where step `step` is cached, if it is.
    fn position(&self, step: usize) -> (r: Option<usize>)
        ensures
            r matches Some(i) ==> i < self.history@.len() && self.history@[i as int].0 == step,
            r is None ==> forall|i: int| 0 <= i < self.history@.len() ==> self.history@[i].0 != step,
    {
        let mut i: usize = 0;
        while i < self.history.len()
            invariant
                i <= self.history@.len(),
                forall|j: int| 0 <= j < i ==> self.history@[j].0 != step,
            decreases self.history@.len() - i,
        {
            if self.history[i].0 == step {
                return Some(i);
            }
            i = i + 1;
        }
        None
    }

    /// Whether step `step` is cached.
    pub fn contains(&self, step: usize) -> (r: bool)
        ensures
            r <==> self.steps().contains(step),
    {
        let p = self.position(step);
        proof {
            if let Some(i) = p {
                assert(self.steps()[i as int] == step);
            } else {
                if self.steps().contains(step) {
                    let j = choose|j: int| 0 <= j < self.steps().len() && self.steps()[j] == step;
                    assert(self.history@[j].0 == step);
                }
            }
        }
        match p {
            Some(_) => true,
            None => false,
        }
    }

    /// Caches `data` as the run after `step` steps; `step` must not be cached yet.
    pub fn insert_step(&mut self, step: usize, data: HistoryData)
        requires
            old(self).wf(),
            data.at_step(old(self).program_spec(), step as nat),
            !old(self).steps().contains(step),
        ensures
            final(self).wf(),
            final(self).program_spec() == old(self).program_spec(),
            final(self).steps().contains(step),
            forall|k: usize| old(self).steps().contains(k) ==> final(self).steps().contains(k),
    {
        let ghost old_history = self.history@;
        let ghost old_steps = self.steps();
        let cells = data.exec_ctx.total_cells_allocated();
        let mut idx: usize = 0;
        while idx < self.history.len() && self.history[idx].0 < step
            invariant
                idx <= self.history@.len(),
                forall|j: int| 0 <= j < idx ==> self.history@[j].0 < step,
            decreases self.history@.len() - idx,
        {
            idx = idx + 1;
        }
        proof {
            assert forall|j: int| 0 <= j < old_history.len() implies old_history[j].0 != step by {
                if old_history[j].0 == step {
                    assert(self.steps()[j] == step);
                }
            }
        }
        self.history.insert(idx, (step, data));
        self.cells_allocated = add_saturating(self.cells_allocated, cells);
        proof {
            let h = self.history@;
            lemma_cached_cells_insert(old_history, idx as int, (step, data));
            assert(h =~= old_history.insert(idx as int, (step, data)));
            assert forall|i: int, j: int| 0 <= i < j < h.len() implies (#[trigger] h[i]).0
                < (#[trigger] h[j]).0 by {
                if j < idx {
                    assert(h[i] == old_history[i] && h[j] == old_history[j]);
                } else if j == idx {
                    assert(h[i] == old_history[i]);
                } else if i > idx {
                    assert(h[i] == old_history[i - 1] && h[j] == old_history[j - 1]);
                } else if i == idx {
                    assert(h[j] == old_history[j - 1]);
                    if idx < old_history.len() {
                        assert(old_history[idx as int].0 >= step);
                        if j - 1 > idx {
                            assert(old_history[idx as int].0 < old_history[j - 1].0);
                        }
                    }
                } else {
                    assert(h[i] == old_history[i] && h[j] == old_history[j - 1]);
                }
            }
            assert(self.steps()[idx as int] == step);
            assert forall|k: usize| old_steps.contains(k) implies self.steps().contains(k) by {
                let j = choose|j: int| 0 <= j < old_steps.len() && #[trigger] old_steps[j] == k;
                assert(old_history[j].0 == k);
                if j < idx {
                    assert(self.steps()[j] == k);
                } else {
                    assert(self.steps()[j + 1] == k);
                }
            }
        }
    }

    /// The run after `step` steps. It starts from the nearest cached step
    /// below, caches every thousandth step on the way, and caches the result.
    pub fn get(&mut self, step: usize) -> (r: HistoryData)
        requires
            old(self).wf(),
        ensures
            final(self).wf(),
            final(self).program_spec() == old(self).program_spec(),
            r.at_step(old(self).program_spec(), step as nat),
            final(self).steps().contains(step),
    {
        let ghost program = self.program;
        let mut lower: Option<usize> = None;
        let mut i: usize = 0;
        while i < self.history.len()
            invariant
                self.wf(),
                i <= self.history@.len(),
                lower matches Some(j) ==> j < self.history@.len() && self.history@[j as int].0
                    < step,
                forall|j: int| 0 <= j < i ==> self.history@[j].0 != step,
            decreases self.history@.len() - i,
        {
            if self.history[i].0 == step {
                proof {
                    assert(self.steps()[i as int] == step);
                }
                return self.history[i].1.duplicate();
            }
            if self.history[i].0 < step {
                lower = Some(i);
            }
            i = i + 1;
        }
        let (start, mut data) = match lower {
            Some(j) => (self.history[j].0, self.history[j].1.duplicate()),
            None => (0, HistoryData::new(&self.program)),
        };
        let mut cur: usize = start;
        while cur < step
            invariant
                self.wf(),
                self.program == program,
                start <= cur <= step,
                data.at_step(program, cur as nat),
            decreases step - cur,
        {
            advance(&mut data, Ghost(program), Ghost(cur as nat));
            cur = cur + 1;
            if cur % 1000 == 0 && !self.contains(cur) {
                self.insert_step(cur, data.duplicate());
            }
        }
        if !self.contains(step) {
            self.insert_step(step, data.duplicate());
        }
        data
    }

    /// Runs on from step `step` until execution leaves the innermost loop
    /// it is in, caching every thousandth step. Returns the run reached and
    /// `step` moved by `step_size` once per step taken, held within
    /// `0..=usize::MAX`. With `(s, e)` the tightest bracket pair around the
    /// program pointer at `step`, it stops at the first step after which the
    /// pointer is outside `s..e`, or the moved label is 0 while moving down;
    /// after 10000 steps at most; and at once when no pair encloses it.
    pub fn get_after_this_loop(&mut self, step: usize, step_size: isize) -> (r: (HistoryData, usize))
        requires
            old(self).wf(),
        ensures
            final(self).wf(),
            final(self).program_spec() == old(self).program_spec(),
            exists|k: nat|
                {
                    &&& k <= 10000
                    &&& r.0.at_step(old(self).program_spec(), (step + k) as nat)
                    &&& r.1 == moved(step as int, step_size as int, k)
                    &&& (!encloses_some(old(self).program_spec(), step as nat) ==> k == 0)
                    &&& forall|bs: int, be: int|
                        tightest_at(old(self).program_spec(), step as nat, bs, be) ==> {
                            &&& forall|j: nat|
                                1 <= j < k ==> !#[trigger] stops(
                                    old(self).program_spec(),
                                    step as nat,
                                    step_size as int,
                                    bs,
                                    be,
                                    j,
                                )
                            &&& k == 10000 || step + k == usize::MAX || stops(
                                old(self).program_spec(),
                                step as nat,
                                step_size as int,
                                bs,
                                be,
                                k,
                            )
                        }
                },
    {
        let ghost program = self.program;
        let mut data = self.get(step);
        let mut actual: usize = step;
        let mut label: usize = step;
        let ghost mut k: nat = 0;
        match data.exec_ctx.current_loop_bounds() {
            Some((start, end)) => {
                proof {
                    assert forall|bs: int, be: int|
                        tightest_at(program, step as nat, bs, be) implies bs == start && be
                        == end by {
                        assert(is_pair(data.exec_ctx.ext(), data.exec_ctx.pairs(), bs, be));
                    }
                }
                let mut i: usize = 0;
                while i < 10000
                    invariant_except_break
                        forall|j: nat|
                            1 <= j <= k ==> !#[trigger] stops(
                                program,
                                step as nat,
                                step_size as int,
                                start as int,
                                end as int,
                                j,
                            ),
                    invariant
                        self.wf(),
                        self.program == program,
                        i <= 10000,
                        k == i,
                        actual == step + k,
                        label == moved(step as int, step_size as int, k),
                        data.at_step(program, actual as nat),
                        forall|j: nat|
                            1 <= j < k ==> !#[trigger] stops(
                                program,
                                step as nat,
                                step_size as int,
                                start as int,
                                end as int,
                                j,
                            ),
                    ensures
                        k == 10000 || actual == usize::MAX || stops(
                            program,
                            step as nat,
                            step_size as int,
                            start as int,
                            end as int,
                            k,
                        ),
                    decreases 10000 - i,
                {
                    if actual == usize::MAX {
                        break;
                    }
                    advance(&mut data, Ghost(program), Ghost(actual as nat));
                    actual = actual + 1;
                    label = add_signed_saturating(label, step_size);
                    proof {
                        k = k + 1;
                    }
                    i = i + 1;
                    if actual % 1000 == 0 && !self.contains(actual) {
                        self.insert_step(actual, data.duplicate());
                    }
                    let pc = data.exec_ctx.program_pointer();
                    let inside_loop = start <= pc && pc < end;
                    if !inside_loop || (label == 0 && step_size < 0) {
                        assert(stops(
                            program,
                            step as nat,
                            step_size as int,
                            start as int,
                            end as int,
                            k,
                        ));
                        break;
                    }
                }
            },
            None => {},
        }
        assert(k <= 10000 && data.at_step(program, (step + k) as nat) && label == moved(
            step as int,
            step_size as int,
            k,
        ));
        (data, label)
    }

    /// Tape cells held by all cached snapshots, or `usize::MAX` if more.
    pub fn total_cells_allocated(&self) -> (r: usize)
        requires
            self.wf(),
        ensures
            r == min_int(cached_cells(self.history_spec()), usize::MAX as int),
    {
        self.cells_allocated
    }

    /// The cached snapshots with their step numbers, in increasing order of step.
    pub closed spec fn history_spec(&self) -> Seq<(usize, HistoryData)> {
        self.history@
    }

    /// How many steps are cached.
    pub fn cached_steps(&self) -> (r: usize)
        ensures
            r == self.steps().len(),
    {
        self.history.len()
    }
}

} // verus!
