//! The busy-beaver search over one program: run it under a step cap and
//! classify the outcome; and the combination of outcomes over many programs.

use crate::engine::{
    fresh_view, lemma_run_succ, run_count, run_spec, ContextView, ExecutionContext, ExecutionStatus,
    StatusView,
};
use crate::history::status_after;
use crate::loop_span::{add_saturating, min_int};
use crate::program::Program;
use vstd::prelude::*;

verus! {

/// The run of `p` from its start after `n` steps.
pub open spec fn state_after(p: Program, n: nat) -> ContextView {
    run_spec(p.extended(), p.matching(), fresh_view(p.extended()), n)
}

/// The base instructions accounted for by the first `n` steps of `p`.
pub open spec fn count_after(p: Program, n: nat) -> int {
    run_count(p.extended(), p.matching(), fresh_view(p.extended()), n)
}

/// What step `n` of `p` reports.
pub open spec fn reported(p: Program, n: nat) -> StatusView {
    status_after(p.extended(), p.matching(), n)
}

/// The first step from `j` on, below `cap`, that reports anything but `Running`.
pub open spec fn first_stop_from(p: Program, j: nat, cap: nat) -> Option<nat>
    decreases cap - j,
{
    if j >= cap {
        None
    } else if reported(p, j) != StatusView::Running {
        Some(j)
    } else {
        first_stop_from(p, j + 1, cap)
    }
}

proof fn lemma_first_stop_reports(p: Program, j: nat, cap: nat)
    ensures
        first_stop_from(p, j, cap) matches Some(n) ==> j <= n < cap && reported(p, n)
            != StatusView::Running,
    decreases cap - j,
{
    if j < cap && reported(p, j) == StatusView::Running {
        lemma_first_stop_reports(p, j + 1, cap);
    }
}

/// The first step, below `cap`, that reports `Halted` or an infinite loop.
pub open spec fn first_stop(p: Program, cap: nat) -> Option<nat> {
    first_stop_from(p, 1, cap)
}

/// The number of steps a capped run of `p` takes.
pub open spec fn steps_taken(p: Program, cap: nat) -> nat {
    match first_stop(p, cap) {
        Some(n) => n,
        None => if cap == 0 {
            0
        } else {
            (cap - 1) as nat
        },
    }
}

/// Runs `program` for at most `max_steps - 1` steps, stopping at the first
/// step that reports `Halted` or an infinite loop. Returns that status, the
/// base instructions accounted for (saturating) and the tape length; or
/// `Running`, no count and the tape length when the cap comes first.
pub fn step_count(program: &Program, max_steps: usize) -> (r: (ExecutionStatus, Option<usize>, usize))
    ensures
        r.2 == state_after(*program, steps_taken(*program, max_steps as nat)).tape.len(),
        match first_stop(*program, max_steps as nat) {
            Some(n) => r.0@ == reported(*program, n) && r.1 == Some(
                min_int(count_after(*program, n), usize::MAX as int) as usize,
            ),
            None => r.0@ == StatusView::Running && r.1 is None,
        },
{
    let mut ctx = ExecutionContext::new(program);
    let ghost p = *program;
    let ghost ext = program.extended();
    let ghost m = program.matching();
    let ghost s0 = fresh_view(ext);
    let ghost cap = max_steps as nat;
    assert(ctx@ =~= s0);
    let mut total: usize = 0;
    let mut i: usize = 1;
    while i < max_steps
        invariant
            1 <= i,
            i <= max_steps || i == 1,
            p == *program,
            cap == max_steps,
            ctx.wf(),
            ctx.ext() == ext,
            ctx.pairs() == m,
            ext == p.extended(),
            m == p.matching(),
            s0 == fresh_view(ext),
            ctx@ == run_spec(ext, m, s0, (i - 1) as nat),
            total == min_int(run_count(ext, m, s0, (i - 1) as nat), usize::MAX as int),
            first_stop(p, cap) == first_stop_from(p, i as nat, cap),
        decreases max_steps - i,
    {
        proof {
            lemma_run_succ(ext, m, s0, (i - 1) as nat);
        }
        let (real_steps, state) = ctx.step();
        total = add_saturating(total, real_steps);
        assert(reported(p, i as nat) == state@);
        match state {
            ExecutionStatus::Running => {},
            _ => {
                assert(state@ != StatusView::Running);
                return (state, Some(total), ctx.tape_length());
            },
        }
        i = i + 1;
    }
    assert(first_stop_from(p, i as nat, cap) is None);
    assert(steps_taken(p, cap) == (i - 1) as nat);
    assert(state_after(p, (i - 1) as nat) == ctx@);
    (ExecutionStatus::Running, None, ctx.tape_length())
}

/// What a search over programs has found.
#[derive(Debug)]
pub struct BusyBeaverResults {
    /// The most base instructions any halting program took, and the programs
    /// that took that many.
    pub busy_beavers: (usize, Vec<Program>),
    /// Of the programs proved not to halt, one that took the most base
    /// instructions before the proof, with that number.
    pub hardest_to_prove: Option<(usize, Program)>,
    /// The longest tape any run reached.
    pub max_tape_length: usize,
    /// The programs still running at the step cap.
    pub unknown_programs: Vec<Program>,
    /// How many programs halted.
    pub num_halted: usize,
    /// How many programs were proved not to halt.
    pub num_looping: usize,
}

impl BusyBeaverResults {
    /// Nothing found: the neutral element of `merge`.
    pub fn empty() -> (r: BusyBeaverResults)
        ensures
            r.busy_beavers.0 == 0,
            r.busy_beavers.1@.len() == 0,
            r.hardest_to_prove is None,
            r.max_tape_length == 0,
            r.unknown_programs@.len() == 0,
            r.num_halted == 0,
            r.num_looping == 0,
    {
        BusyBeaverResults {
            busy_beavers: (0, Vec::new()),
            hardest_to_prove: None,
            max_tape_length: 0,
            unknown_programs: Vec::new(),
            num_halted: 0,
            num_looping: 0,
        }
    }

    /// What running `program` under the step cap finds: a halting program
    /// with its count, a program proved not to halt with its count, or an
    /// unknown one; with the tape length its run reached.
    pub fn of_program(program: Program, max_steps: usize) -> (r: BusyBeaverResults)
        ensures
            r.max_tape_length == state_after(program, steps_taken(program, max_steps as nat)).tape.len(),
            match first_stop(program, max_steps as nat) {
                Some(n) => {
                    let count = min_int(count_after(program, n), usize::MAX as int);
                    if reported(program, n) == StatusView::Halted {
                        &&& r.busy_beavers.0 == count
                        &&& r.busy_beavers.1@ == seq![program]
                        &&& r.hardest_to_prove is None
                        &&& r.unknown_programs@.len() == 0
                        &&& r.num_halted == 1
                        &&& r.num_looping == 0
                    } else {
                        &&& r.busy_beavers.0 == 0
                        &&& r.busy_beavers.1@.len() == 0
                        &&& r.hardest_to_prove == Some((count as usize, program))
                        &&& r.unknown_programs@.len() == 0
                        &&& r.num_halted == 0
                        &&& r.num_looping == 1
                    }
                },
                None => {
                    &&& r.busy_beavers.0 == 0
                    &&& r.busy_beavers.1@.len() == 0
                    &&& r.hardest_to_prove is None
                    &&& r.unknown_programs@ == seq![program]
                    &&& r.num_halted == 0
                    &&& r.num_looping == 0
                },
            },
    {
        let (state, step, max_tape_length) = step_count(&program, max_steps);
        proof {
            lemma_first_stop_reports(program, 1, max_steps as nat);
            if let Some(n) = first_stop(program, max_steps as nat) {
                lemma_run_succ(
                    program.extended(),
                    program.matching(),
                    fresh_view(program.extended()),
                    n,
                );
            }
        }
        let mut busy_beavers: Vec<Program> = Vec::new();
        let mut unknown_programs: Vec<Program> = Vec::new();
        let mut hardest_to_prove: Option<(usize, Program)> = None;
        let mut best: usize = 0;
        let mut num_halted: usize = 0;
        let mut num_looping: usize = 0;
        let steps = match step {
            Some(s) => s,
            None => 0,
        };
        match state {
            ExecutionStatus::Running => {
                unknown_programs.push(program);
                assert(unknown_programs@ =~= seq![program]);
            },
            ExecutionStatus::Halted => {
                busy_beavers.push(program);
                assert(busy_beavers@ =~= seq![program]);
                best = steps;
                num_halted = 1;
            },
            ExecutionStatus::InfiniteLoop(_) => {
                hardest_to_prove = Some((steps, program));
                num_looping = 1;
            },
        }
        BusyBeaverResults {
            busy_beavers: (best, busy_beavers),
            hardest_to_prove,
            max_tape_length,
            unknown_programs,
            num_halted,
            num_looping,
        }
    }

    /// Combines the findings over two disjoint sets of programs: the larger
    /// best count with its programs (both lists, `a`'s first, on a tie); the
    /// harder of the two non-halting proofs (`b`'s on a tie); the longer
    /// tape; the unknown programs of both, `a`'s first; the summed counts.
    pub fn merge(a: BusyBeaverResults, b: BusyBeaverResults) -> (r: BusyBeaverResults)
        requires
            a.num_halted + b.num_halted <= usize::MAX,
            a.num_looping + b.num_looping <= usize::MAX,
        ensures
            r.busy_beavers.0 == if a.busy_beavers.0 >= b.busy_beavers.0 {
                a.busy_beavers.0
            } else {
                b.busy_beavers.0
            },
            r.busy_beavers.1@ == if a.busy_beavers.0 == b.busy_beavers.0 {
                a.busy_beavers.1@ + b.busy_beavers.1@
            } else if a.busy_beavers.0 > b.busy_beavers.0 {
                a.busy_beavers.1@
            } else {
                b.busy_beavers.1@
            },
            r.hardest_to_prove == match (a.hardest_to_prove, b.hardest_to_prove) {
                (Some(x), Some(y)) => if x.0 > y.0 {
                    Some(x)
                } else {
                    Some(y)
                },
                (Some(x), None) => Some(x),
                (None, y) => y,
            },
            r.max_tape_length == if a.max_tape_length >= b.max_tape_length {
                a.max_tape_length
            } else {
                b.max_tape_length
            },
            r.unknown_programs@ == a.unknown_programs@ + b.unknown_programs@,
            r.num_halted == a.num_halted + b.num_halted,
            r.num_looping == a.num_looping + b.num_looping,
    {
        let BusyBeaverResults {
            busy_beavers: (a_best, mut a_programs),
            hardest_to_prove: a_hardest,
            max_tape_length: a_tape,
            unknown_programs: mut a_unknown,
            num_halted: a_halted,
            num_looping: a_looping,
        } = a;
        let BusyBeaverResults {
            busy_beavers: (b_best, mut b_programs),
            hardest_to_prove: b_hardest,
            max_tape_length: b_tape,
            unknown_programs: mut b_unknown,
            num_halted: b_halted,
            num_looping: b_looping,
        } = b;
        let best = if a_best >= b_best {
            a_best
        } else {
            b_best
        };
        let programs = if a_best == b_best {
            a_programs.append(&mut b_programs);
            a_programs
        } else if a_best > b_best {
            a_programs
        } else {
            b_programs
        };
        let hardest = match (a_hardest, b_hardest) {
            (Some((a_steps, a_prog)), Some((b_steps, b_prog))) => {
                if a_steps > b_steps {
                    Some((a_steps, a_prog))
                } else {
                    Some((b_steps, b_prog))
                }
            },
            (Some(x), None) => Some(x),
            (None, y) => y,
        };
        a_unknown.append(&mut b_unknown);
        BusyBeaverResults {
            busy_beavers: (best, programs),
            hardest_to_prove: hardest,
            max_tape_length: if a_tape >= b_tape {
                a_tape
            } else {
                b_tape
            },
            unknown_programs: a_unknown,
            num_halted: a_halted + b_halted,
            num_looping: a_looping + b_looping,
        }
    }
}

} // verus!
