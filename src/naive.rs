//! A naive interpreter of the base instructions, one step per instruction,
//! and the proof that the fused engine accounts for exactly its steps.

use crate::engine::{
    context_wf, fresh_view, lemma_loop_if_nonzero_repeats, lemma_step_preserves_wf, run_count, run_spec, step_spec, ContextView,
    StatusView,
};
use crate::instr::{fuse, lift, parse_chars, render, lemma_parse_render, ExtendedInstr, Instr};
use crate::program::{
    balanced, bracket_map, depth, lemma_depth_step, lemma_partner, matches_at, Program,
};
use vstd::prelude::*;

verus! {

/// How many base instructions an extended instruction stands for.
pub open spec fn width(e: ExtendedInstr) -> int {
    match e {
        ExtendedInstr::SetToZeroPlus => 3,
        ExtendedInstr::SetToZeroMinus => 3,
        ExtendedInstr::LoopIfNonzero => 2,
        ExtendedInstr::BaseInstr(_) => 1,
    }
}

/// The index in the base program where extended instruction `i` begins.
pub open spec fn origin(e: Seq<ExtendedInstr>, i: int) -> int
    decreases i,
{
    if i <= 0 {
        0
    } else {
        origin(e, i - 1) + width(e[i - 1])
    }
}

/// The base instructions at `o` are the ones that `x` stands for.
pub open spec fn spelled_at(p: Seq<Instr>, o: int, x: ExtendedInstr) -> bool {
    &&& 0 <= o
    &&& o + width(x) <= p.len()
    &&& match x {
        ExtendedInstr::BaseInstr(b) => p[o] == b,
        ExtendedInstr::SetToZeroPlus => p[o] == Instr::StartLoop && p[o + 1] == Instr::Plus
            && p[o + 2] == Instr::EndLoop,
        ExtendedInstr::SetToZeroMinus => p[o] == Instr::StartLoop && p[o + 1] == Instr::Minus
            && p[o + 2] == Instr::EndLoop,
        ExtendedInstr::LoopIfNonzero => p[o] == Instr::StartLoop && p[o + 1] == Instr::EndLoop,
    }
}

proof fn lemma_origin_cons(h: ExtendedInstr, rest: Seq<ExtendedInstr>, i: int)
    requires
        1 <= i <= rest.len() + 1,
    ensures
        origin(seq![h] + rest, i) == width(h) + origin(rest, i - 1),
    decreases i,
{
    let e = seq![h] + rest;
    assert(e[0] == h);
    if i > 1 {
        lemma_origin_cons(h, rest, i - 1);
        assert(e[i - 1] == rest[i - 2]);
    } else {
        assert(origin(e, 1) == origin(e, 0) + width(e[0]));
        assert(origin(rest, 0) == 0);
    }
}

proof fn lemma_origin_monotone(e: Seq<ExtendedInstr>, i: int, k: int)
    requires
        0 <= i < k,
    ensures
        origin(e, i) + 1 <= origin(e, k),
        origin(e, i + 1) <= origin(e, k),
    decreases k - i,
{
    if k > i + 1 {
        lemma_origin_monotone(e, i, k - 1);
    }
}

/// Extended instruction `i` of `fuse(p)` spells out base instructions of `p`
/// from `origin(fuse(p), i)` on.
proof fn lemma_fuse_at(p: Seq<Instr>, i: int)
    requires
        0 <= i < fuse(p).len(),
    ensures
        spelled_at(p, origin(fuse(p), i), fuse(p)[i]),
    decreases p.len(),
{
    let e = fuse(p);
    let h = e[0];
    let w = width(h);
    let q = p.skip(w);
    assert(e == seq![h] + fuse(q));
    if i > 0 {
        lemma_fuse_at(q, i - 1);
        lemma_origin_cons(h, fuse(q), i);
        assert(e[i] == fuse(q)[i - 1]);
    }
}

/// The fused form spells out the whole base program.
proof fn lemma_fuse_end(p: Seq<Instr>)
    ensures
        origin(fuse(p), fuse(p).len() as int) == p.len(),
    decreases p.len(),
{
    let e = fuse(p);
    if p.len() > 0 {
        let h = e[0];
        let q = p.skip(width(h));
        assert(e == seq![h] + fuse(q));
        lemma_fuse_end(q);
        lemma_origin_cons(h, fuse(q), e.len() as int);
    }
}

/// Depths inside the base program at the start of extended instruction `i`,
/// and one and two places after it.
proof fn lemma_depth_origin(p: Seq<Instr>, i: int)
    requires
        0 <= i <= fuse(p).len(),
    ensures
        depth(lift(p), origin(fuse(p), i)) == depth(fuse(p), i),
        i < fuse(p).len() && width(fuse(p)[i]) >= 2 ==> depth(lift(p), origin(fuse(p), i) + 1)
            == depth(fuse(p), i) + 1,
        i < fuse(p).len() && width(fuse(p)[i]) == 3 ==> depth(lift(p), origin(fuse(p), i) + 2)
            == depth(fuse(p), i) + 1,
    decreases i,
{
    let e = fuse(p);
    let l = lift(p);
    if i > 0 {
        lemma_depth_origin(p, i - 1);
        let o = origin(e, i - 1);
        lemma_fuse_at(p, i - 1);
        lemma_depth_step(l, o);
        lemma_depth_step(l, o + 1);
        lemma_depth_step(l, o + 2);
        lemma_depth_step(e, i - 1);
    }
    if i < e.len() {
        let o = origin(e, i);
        lemma_fuse_at(p, i);
        lemma_depth_step(l, o);
        lemma_depth_step(l, o + 1);
    }
}

/// Every base index before `origin(e, n)` lies in the span of one of the
/// first `n` extended instructions.
proof fn lemma_locate(e: Seq<ExtendedInstr>, m: int, n: int)
    requires
        0 <= m < origin(e, n),
        0 <= n,
    ensures
        exists|k: int| 0 <= k < n && origin(e, k) <= m < #[trigger] origin(e, k + 1),
    decreases n,
{
    if n > 0 {
        if m < origin(e, n - 1) {
            lemma_locate(e, m, n - 1);
            let k = choose|k: int| 0 <= k < n - 1 && origin(e, k) <= m < #[trigger] origin(e, k + 1);
            assert(origin(e, k) <= m < origin(e, k + 1));
        } else {
            assert(origin(e, n - 1) <= m < origin(e, (n - 1) + 1));
        }
    }
}

/// A bracket pair of the fused form is a bracket pair of the base form.
proof fn lemma_lift_match(p: Seq<Instr>, i: int, j: int)
    requires
        matches_at(fuse(p), i, j),
    ensures
        matches_at(lift(p), origin(fuse(p), i), origin(fuse(p), j)),
{
    let e = fuse(p);
    let l = lift(p);
    let oi = origin(e, i);
    let oj = origin(e, j);
    lemma_fuse_at(p, i);
    lemma_fuse_at(p, j);
    lemma_depth_origin(p, i);
    lemma_depth_origin(p, j);
    lemma_origin_monotone(e, i, j);
    lemma_fuse_end(p);
    if j + 1 < e.len() {
        lemma_origin_monotone(e, j, e.len() as int);
    }
    assert forall|m: int| oi < m <= oj implies depth(l, m) > depth(l, oi) by {
        if m == oj {
        } else {
            lemma_locate(e, m, j);
            let k = choose|k: int| 0 <= k < j && origin(e, k) <= m < #[trigger] origin(e, k + 1);
            if k < i {
                lemma_origin_monotone(e, k, i);
            }
            if k == i {
                assert(origin(e, i + 1) == oi + 1);
            }
            lemma_depth_origin(p, k);
            lemma_fuse_at(p, k);
            assert(depth(e, k) > depth(e, i));
        }
    }
}

/// A `StartLoop` closes at one place only.
pub proof fn lemma_match_unique(e: Seq<ExtendedInstr>, s: int, x: int, y: int)
    requires
        matches_at(e, s, x),
        matches_at(e, s, y),
    ensures
        x == y,
{
    if x < y {
        lemma_depth_step(e, x);
        assert(depth(e, x + 1) > depth(e, s));
    }
    if y < x {
        lemma_depth_step(e, y);
        assert(depth(e, y + 1) > depth(e, s));
    }
}

/// The state of the naive interpreter.
pub struct NaiveState {
    pub tape: Seq<u8>,
    pub ptr: int,
    pub pc: int,
}

/// One step of the naive interpreter on base program `p` whose brackets are
/// paired by `nm`; past the end it stays where it is.
pub open spec fn naive_step(p: Seq<Instr>, nm: Seq<Option<usize>>, s: NaiveState) -> NaiveState {
    if s.pc < 0 || s.pc >= p.len() {
        s
    } else {
        let c = s.tape[s.ptr];
        match p[s.pc] {
            Instr::Plus => NaiveState {
                tape: s.tape.update(s.ptr, ((c + 1) % 256) as u8),
                pc: s.pc + 1,
                ..s
            },
            Instr::Minus => NaiveState {
                tape: s.tape.update(s.ptr, ((c + 255) % 256) as u8),
                pc: s.pc + 1,
                ..s
            },
            Instr::Left => NaiveState {
                ptr: if s.ptr > 0 {
                    s.ptr - 1
                } else {
                    0
                },
                pc: s.pc + 1,
                ..s
            },
            Instr::Right => NaiveState {
                tape: if s.ptr + 1 >= s.tape.len() {
                    s.tape.push(0)
                } else {
                    s.tape
                },
                ptr: s.ptr + 1,
                pc: s.pc + 1,
            },
            Instr::StartLoop => NaiveState {
                pc: if c == 0 {
                    nm[s.pc]->0 + 1
                } else {
                    s.pc + 1
                },
                ..s
            },
            Instr::EndLoop => NaiveState {
                pc: if c != 0 {
                    nm[s.pc]->0 + 1
                } else {
                    s.pc + 1
                },
                ..s
            },
        }
    }
}

/// The naive state after `k` steps.
pub open spec fn naive_run(p: Seq<Instr>, nm: Seq<Option<usize>>, s: NaiveState, k: nat) -> NaiveState
    decreases k,
{
    if k == 0 {
        s
    } else {
        naive_run(p, nm, naive_step(p, nm, s), (k - 1) as nat)
    }
}

/// The naive state that corresponds to an engine state.
pub open spec fn naive_of(ext: Seq<ExtendedInstr>, s: ContextView) -> NaiveState {
    NaiveState { tape: s.tape, ptr: s.ptr, pc: origin(ext, s.pc) }
}

proof fn lemma_naive_run_add(p: Seq<Instr>, nm: Seq<Option<usize>>, s: NaiveState, a: nat, b: nat)
    ensures
        naive_run(p, nm, s, a + b) == naive_run(p, nm, naive_run(p, nm, s, a), b),
    decreases a,
{
    if a > 0 {
        lemma_naive_run_add(p, nm, naive_step(p, nm, s), (a - 1) as nat, b);
        assert((a + b - 1) as nat == ((a - 1) as nat + b) as nat);
    }
}

proof fn lemma_naive_run_one(p: Seq<Instr>, nm: Seq<Option<usize>>, s: NaiveState)
    ensures
        naive_run(p, nm, s, 1) == naive_step(p, nm, s),
{
    assert(naive_run(p, nm, naive_step(p, nm, s), 0) == naive_step(p, nm, s));
}

/// Inside `[-]`, at the `-` with a nonzero cell `v`: `2 v` steps clear the cell
/// and leave the loop, never reaching the end of the program on the way.
proof fn lemma_clear_minus(p: Seq<Instr>, nm: Seq<Option<usize>>, s: NaiveState, o: int, v: nat)
    requires
        spelled_at(p, o, ExtendedInstr::SetToZeroMinus),
        nm[o + 2] is Some && nm[o + 2]->0 == o,
        s.pc == o + 1,
        0 <= s.ptr < s.tape.len(),
        s.tape[s.ptr] == v,
        v >= 1,
    ensures
        naive_run(p, nm, s, 2 * v) == (NaiveState { tape: s.tape.update(s.ptr, 0), ..s }).with_pc(o + 3),
        forall|k: nat| k < 2 * v ==> (#[trigger] naive_run(p, nm, s, k)).pc < p.len(),
    decreases v,
{
    let s1 = naive_step(p, nm, s);
    let s2 = naive_step(p, nm, s1);
    lemma_naive_run_one(p, nm, s);
    lemma_naive_run_add(p, nm, s, 1, 1);
    lemma_naive_run_one(p, nm, s1);
    assert(s1.pc == o + 2 && s1.tape == s.tape.update(s.ptr, (v - 1) as u8));
    if v == 1 {
        assert(s2.tape =~= s.tape.update(s.ptr, 0));
    } else {
        assert(s2.pc == o + 1);
        lemma_clear_minus(p, nm, s2, o, (v - 1) as nat);
        assert(s2.tape.update(s.ptr, 0) =~= s.tape.update(s.ptr, 0));
        lemma_naive_run_add(p, nm, s, 2, (2 * v - 2) as nat);
        assert forall|k: nat| k < 2 * v implies (#[trigger] naive_run(p, nm, s, k)).pc < p.len() by {
            if k >= 2 {
                lemma_naive_run_add(p, nm, s, 2, (k - 2) as nat);
                assert(naive_run(p, nm, s2, (k - 2) as nat).pc < p.len());
            } else if k == 1 {
            } else {
            }
        }
    }
}

/// Inside `[+]`, at the `+` with a nonzero cell `v`: `2 (256 - v)` steps bring
/// the cell round to zero and leave the loop, never reaching the end of the
/// program on the way.
proof fn lemma_clear_plus(p: Seq<Instr>, nm: Seq<Option<usize>>, s: NaiveState, o: int, v: nat)
    requires
        spelled_at(p, o, ExtendedInstr::SetToZeroPlus),
        nm[o + 2] is Some && nm[o + 2]->0 == o,
        s.pc == o + 1,
        0 <= s.ptr < s.tape.len(),
        s.tape[s.ptr] == v,
        1 <= v <= 255,
    ensures
        naive_run(p, nm, s, (2 * (256 - v)) as nat) == (NaiveState {
            tape: s.tape.update(s.ptr, 0),
            ..s
        }).with_pc(o + 3),
        forall|k: nat| k < 2 * (256 - v) ==> (#[trigger] naive_run(p, nm, s, k)).pc < p.len(),
    decreases 256 - v,
{
    let s1 = naive_step(p, nm, s);
    let s2 = naive_step(p, nm, s1);
    lemma_naive_run_one(p, nm, s);
    lemma_naive_run_add(p, nm, s, 1, 1);
    lemma_naive_run_one(p, nm, s1);
    assert(s1.pc == o + 2 && s1.tape == s.tape.update(s.ptr, ((v + 1) % 256) as u8));
    if v == 255 {
        assert(s2.tape =~= s.tape.update(s.ptr, 0));
    } else {
        assert(s2.pc == o + 1);
        lemma_clear_plus(p, nm, s2, o, (v + 1) as nat);
        assert(s2.tape.update(s.ptr, 0) =~= s.tape.update(s.ptr, 0));
        lemma_naive_run_add(p, nm, s, 2, (2 * (256 - v) - 2) as nat);
        assert forall|k: nat| k < 2 * (256 - v) implies (#[trigger] naive_run(p, nm, s, k)).pc
            < p.len() by {
            if k >= 2 {
                lemma_naive_run_add(p, nm, s, 2, (k - 2) as nat);
                assert(naive_run(p, nm, s2, (k - 2) as nat).pc < p.len());
            }
        }
    }
}

impl NaiveState {
    pub open spec fn with_pc(self, pc: int) -> NaiveState {
        NaiveState { pc, ..self }
    }
}

/// The naive pairing holds the pair `a`, `b` both ways.
proof fn lemma_naive_partner(p: Seq<Instr>, nm: Seq<Option<usize>>, a: int, b: int)
    requires
        p.len() <= usize::MAX,
        bracket_map(lift(p), nm),
        matches_at(lift(p), a, b),
    ensures
        nm[a] is Some && nm[a]->0 == b,
        nm[b] is Some && nm[b]->0 == a,
{
    let l = lift(p);
    lemma_partner(l, nm, a);
    lemma_match_unique(l, a, nm[a]->0 as int, b);
    lemma_partner(l, nm, b);
}

/// The engine reports a `LoopIfNonzero` verdict from this state.
pub open spec fn spins(e: Seq<ExtendedInstr>, s: ContextView) -> bool {
    0 <= s.pc < e.len() && e[s.pc] == ExtendedInstr::LoopIfNonzero && s.tape[s.ptr] != 0
}

/// A fused `[-]` or `[+]` at `o` is a bracket pair of the base form.
proof fn lemma_clear_loop_pair(p: Seq<Instr>, o: int, x: ExtendedInstr)
    requires
        spelled_at(p, o, x),
        x == ExtendedInstr::SetToZeroMinus || x == ExtendedInstr::SetToZeroPlus,
    ensures
        matches_at(lift(p), o, o + 2),
{
    let l = lift(p);
    lemma_depth_step(l, o);
    lemma_depth_step(l, o + 1);
    assert(l[o] == ExtendedInstr::BaseInstr(Instr::StartLoop));
    assert(l[o + 2] == ExtendedInstr::BaseInstr(Instr::EndLoop));
    assert forall|m: int| o < m <= o + 2 implies depth(l, m) > depth(l, o) by {
        if m == o + 1 {
        } else {
        }
    }
}

/// A fused `[]` at `o` is a bracket pair of the base form.
proof fn lemma_empty_loop_pair(p: Seq<Instr>, o: int)
    requires
        spelled_at(p, o, ExtendedInstr::LoopIfNonzero),
    ensures
        matches_at(lift(p), o, o + 1),
{
    let l = lift(p);
    lemma_depth_step(l, o);
    assert(l[o] == ExtendedInstr::BaseInstr(Instr::StartLoop));
    assert(l[o + 1] == ExtendedInstr::BaseInstr(Instr::EndLoop));
}

/// One engine step from a reachable state that does not spin accounts for
/// `c >= 1` base instructions, and the naive interpreter takes exactly those
/// `c` steps to the corresponding state, without reaching the end on the way.
proof fn lemma_step_simulates(
    p: Seq<Instr>,
    m: Seq<Option<usize>>,
    nm: Seq<Option<usize>>,
    s: ContextView,
)
    requires
        p.len() <= usize::MAX,
        balanced(fuse(p)),
        bracket_map(fuse(p), m),
        bracket_map(lift(p), nm),
        context_wf(fuse(p), m, s),
        s.pc < fuse(p).len(),
        !spins(fuse(p), s),
    ensures
        step_spec(fuse(p), m, s).1 >= 1,
        naive_run(p, nm, naive_of(fuse(p), s), step_spec(fuse(p), m, s).1 as nat) == naive_of(
            fuse(p),
            step_spec(fuse(p), m, s).0,
        ),
        forall|k: nat|
            k < step_spec(fuse(p), m, s).1 ==> (#[trigger] naive_run(
                p,
                nm,
                naive_of(fuse(p), s),
                k,
            )).pc < p.len(),
{
    let e = fuse(p);
    let l = lift(p);
    let pc = s.pc;
    let o = origin(e, pc);
    let ns = naive_of(e, s);
    let (t, c, st) = step_spec(e, m, s);
    let v = s.tape[s.ptr];
    lemma_fuse_at(p, pc);
    lemma_naive_run_one(p, nm, ns);
    assert(origin(e, pc + 1) == o + width(e[pc]));
    match e[pc] {
        ExtendedInstr::BaseInstr(Instr::StartLoop) => {
            lemma_partner(e, m, pc);
            let j = m[pc]->0 as int;
            lemma_lift_match(p, pc, j);
            lemma_naive_partner(p, nm, o, origin(e, j));
            assert(origin(e, j + 1) == origin(e, j) + width(e[j]));
        },
        ExtendedInstr::BaseInstr(Instr::EndLoop) => {
            lemma_partner(e, m, pc);
            let k = m[pc]->0 as int;
            lemma_lift_match(p, k, pc);
            lemma_naive_partner(p, nm, origin(e, k), o);
            assert(origin(e, k + 1) == origin(e, k) + width(e[k]));
        },
        ExtendedInstr::SetToZeroMinus => {
            lemma_clear_loop_pair(p, o, e[pc]);
            lemma_naive_partner(p, nm, o, o + 2);
            if v == 0 {
                assert(t.tape =~= s.tape);
            } else {
                let ns1 = naive_step(p, nm, ns);
                lemma_clear_minus(p, nm, ns1, o, v as nat);
                lemma_naive_run_add(p, nm, ns, 1, (2 * v) as nat);
                assert forall|k: nat| k < c implies (#[trigger] naive_run(p, nm, ns, k)).pc
                    < p.len() by {
                    if k >= 1 {
                        lemma_naive_run_add(p, nm, ns, 1, (k - 1) as nat);
                        assert(naive_run(p, nm, ns1, (k - 1) as nat).pc < p.len());
                    }
                }
            }
        },
        ExtendedInstr::SetToZeroPlus => {
            lemma_clear_loop_pair(p, o, e[pc]);
            lemma_naive_partner(p, nm, o, o + 2);
            if v == 0 {
                assert(t.tape =~= s.tape);
            } else {
                let ns1 = naive_step(p, nm, ns);
                lemma_clear_plus(p, nm, ns1, o, v as nat);
                assert((256 - v) % 256 == 256 - v);
                lemma_naive_run_add(p, nm, ns, 1, (2 * (256 - v)) as nat);
                assert forall|k: nat| k < c implies (#[trigger] naive_run(p, nm, ns, k)).pc
                    < p.len() by {
                    if k >= 1 {
                        lemma_naive_run_add(p, nm, ns, 1, (k - 1) as nat);
                        assert(naive_run(p, nm, ns1, (k - 1) as nat).pc < p.len());
                    }
                }
            }
        },
        ExtendedInstr::LoopIfNonzero => {
            lemma_empty_loop_pair(p, o);
            lemma_naive_partner(p, nm, o, o + 1);
        },
        _ => {},
    }
}

/// From a halted state, steps account for nothing.
proof fn lemma_halted_counts_nothing(
    e: Seq<ExtendedInstr>,
    m: Seq<Option<usize>>,
    s: ContextView,
    n: nat,
)
    requires
        s.pc >= e.len(),
    ensures
        run_count(e, m, s, n) == 0,
        run_spec(e, m, s, n) == s,
    decreases n,
{
    if n > 0 {
        lemma_halted_counts_nothing(e, m, s, (n - 1) as nat);
    }
}

/// Fusion keeps the observed step count. If the engine, from a reachable
/// state of the fused program, halts within `n` steps, then the naive
/// interpreter of the base program, started at the corresponding place,
/// halts after exactly the number of base instructions those steps
/// accounted for, and not earlier.
pub proof fn lemma_fusion_preserves_step_count(
    p: Seq<Instr>,
    m: Seq<Option<usize>>,
    nm: Seq<Option<usize>>,
    s: ContextView,
    n: nat,
)
    requires
        p.len() <= usize::MAX,
        balanced(fuse(p)),
        bracket_map(fuse(p), m),
        bracket_map(lift(p), nm),
        context_wf(fuse(p), m, s),
        run_spec(fuse(p), m, s, n).pc >= fuse(p).len(),
    ensures
        run_count(fuse(p), m, s, n) >= 0,
        naive_run(p, nm, naive_of(fuse(p), s), run_count(fuse(p), m, s, n) as nat).pc >= p.len(),
        forall|k: nat|
            k < run_count(fuse(p), m, s, n) ==> (#[trigger] naive_run(
                p,
                nm,
                naive_of(fuse(p), s),
                k,
            )).pc < p.len(),
    decreases n,
{
    let e = fuse(p);
    let ns = naive_of(e, s);
    if s.pc >= e.len() {
        lemma_halted_counts_nothing(e, m, s, n);
        lemma_fuse_end(p);
    } else {
        assert(n > 0);
        let t = step_spec(e, m, s).0;
        let c = step_spec(e, m, s).1;
        if spins(e, s) {
            lemma_loop_if_nonzero_repeats(e, m, s, n);
        }
        lemma_step_simulates(p, m, nm, s);
        lemma_step_preserves_wf(e, m, s);
        lemma_fusion_preserves_step_count(p, m, nm, t, (n - 1) as nat);
        let rest = run_count(e, m, t, (n - 1) as nat);
        assert(run_count(e, m, s, n) == c + rest);
        lemma_naive_run_add(p, nm, ns, c as nat, rest as nat);
        assert forall|k: nat| k < c + rest implies (#[trigger] naive_run(p, nm, ns, k)).pc
            < p.len() by {
            if k >= c {
                lemma_naive_run_add(p, nm, ns, c as nat, (k - c) as nat);
                assert(naive_run(p, nm, naive_of(e, t), (k - c) as nat).pc < p.len());
            }
        }
    }
}

/// At the `]` of a `[]` with a nonzero cell the naive interpreter never moves.
proof fn lemma_spin_forever(p: Seq<Instr>, nm: Seq<Option<usize>>, s: NaiveState, k: nat)
    requires
        0 <= s.pc < p.len(),
        p[s.pc] == Instr::EndLoop,
        nm[s.pc] is Some && nm[s.pc]->0 == s.pc - 1,
        0 <= s.ptr < s.tape.len(),
        s.tape[s.ptr] != 0,
    ensures
        naive_run(p, nm, s, k) == s,
    decreases k,
{
    assert(naive_step(p, nm, s) == s);
    if k > 0 {
        lemma_spin_forever(p, nm, s, (k - 1) as nat);
    }
}

/// A `LoopIfNonzero` verdict is sound. If the engine, from a reachable
/// state, reports `InfiniteLoop(LoopIfNonzero)` after `n` steps, then the
/// naive interpreter of the base program, started at the corresponding
/// place, never reaches the end of the program, whatever its step budget.
pub proof fn lemma_loop_if_nonzero_verdict_is_sound(
    p: Seq<Instr>,
    m: Seq<Option<usize>>,
    nm: Seq<Option<usize>>,
    s: ContextView,
    n: nat,
)
    requires
        p.len() <= usize::MAX,
        balanced(fuse(p)),
        bracket_map(fuse(p), m),
        bracket_map(lift(p), nm),
        context_wf(fuse(p), m, s),
        step_spec(fuse(p), m, run_spec(fuse(p), m, s, n)).2 == StatusView::LoopIfNonzero,
    ensures
        forall|k: nat| (#[trigger] naive_run(p, nm, naive_of(fuse(p), s), k)).pc < p.len(),
    decreases n,
{
    let e = fuse(p);
    let ns = naive_of(e, s);
    if s.pc >= e.len() {
        lemma_halted_counts_nothing(e, m, s, n);
    } else if spins(e, s) {
        let o = origin(e, s.pc);
        lemma_fuse_at(p, s.pc);
        lemma_empty_loop_pair(p, o);
        lemma_naive_partner(p, nm, o, o + 1);
        let ns1 = naive_step(p, nm, ns);
        assert forall|k: nat| (#[trigger] naive_run(p, nm, ns, k)).pc < p.len() by {
            if k > 0 {
                lemma_spin_forever(p, nm, ns1, (k - 1) as nat);
            }
        }
    } else {
        assert(n > 0) by {
            if n == 0 {
                assert(step_spec(e, m, s).2 != StatusView::LoopIfNonzero);
            }
        }
        let t = step_spec(e, m, s).0;
        let c = step_spec(e, m, s).1;
        lemma_step_simulates(p, m, nm, s);
        lemma_step_preserves_wf(e, m, s);
        lemma_loop_if_nonzero_verdict_is_sound(p, m, nm, t, (n - 1) as nat);
        assert forall|k: nat| (#[trigger] naive_run(p, nm, ns, k)).pc < p.len() by {
            if k >= c {
                lemma_naive_run_add(p, nm, ns, c as nat, (k - c) as nat);
                assert(naive_run(p, nm, naive_of(e, t), (k - c) as nat).pc < p.len());
            }
        }
    }
}

/// The run of a compiled program from its start is a reachable state, and
/// corresponds to the naive interpreter at its start.
proof fn lemma_fresh_start(p: Program)
    requires
        p.wf(),
    ensures
        context_wf(p.extended(), p.matching(), fresh_view(p.extended())),
        naive_of(p.extended(), fresh_view(p.extended())) == (NaiveState {
            tape: seq![0u8],
            ptr: 0,
            pc: 0,
        }),
{
}

/// Fusion keeps the observed step count, for a compiled program run from
/// its start: if the engine halts within `n` steps, having accounted for `K`
/// base instructions, then the naive interpreter of the program's base
/// instructions, from a tape of one zero cell, halts after exactly `K`
/// steps.
pub proof fn lemma_program_fusion_preserves_step_count(p: Program, nm: Seq<Option<usize>>, n: nat)
    requires
        p.wf(),
        p.original().len() <= usize::MAX,
        bracket_map(lift(p.original()), nm),
        run_spec(p.extended(), p.matching(), fresh_view(p.extended()), n).pc
            >= p.extended().len(),
    ensures
        ({
            let k = run_count(p.extended(), p.matching(), fresh_view(p.extended()), n);
            let start = NaiveState { tape: seq![0u8], ptr: 0, pc: 0 };
            &&& k >= 0
            &&& naive_run(p.original(), nm, start, k as nat).pc >= p.original().len()
            &&& forall|j: nat| j < k ==> (#[trigger] naive_run(p.original(), nm, start, j)).pc
                < p.original().len()
        }),
{
    lemma_fresh_start(p);
    lemma_fusion_preserves_step_count(
        p.original(),
        p.matching(),
        nm,
        fresh_view(p.extended()),
        n,
    );
}

/// A `LoopIfNonzero` verdict is sound, for a compiled program run from its
/// start: if step `n + 1` reports it, the naive interpreter of the program's
/// base instructions, from a tape of one zero cell, never halts.
pub proof fn lemma_program_loop_if_nonzero_is_sound(p: Program, nm: Seq<Option<usize>>, n: nat)
    requires
        p.wf(),
        p.original().len() <= usize::MAX,
        bracket_map(lift(p.original()), nm),
        step_spec(
            p.extended(),
            p.matching(),
            run_spec(p.extended(), p.matching(), fresh_view(p.extended()), n),
        ).2 == StatusView::LoopIfNonzero,
    ensures
        forall|j: nat|
            (#[trigger] naive_run(
                p.original(),
                nm,
                NaiveState { tape: seq![0u8], ptr: 0, pc: 0 },
                j,
            )).pc < p.original().len(),
{
    lemma_fresh_start(p);
    lemma_loop_if_nonzero_verdict_is_sound(
        p.original(),
        p.matching(),
        nm,
        fresh_view(p.extended()),
        n,
    );
}

/// Fusion changes no bracket: the fused form is balanced exactly when the
/// base instructions are.
pub proof fn lemma_fusion_keeps_balance(p: Seq<Instr>)
    ensures
        balanced(fuse(p)) <==> balanced(lift(p)),
{
    let e = fuse(p);
    let l = lift(p);
    let n = e.len() as int;
    lemma_fuse_end(p);
    lemma_depth_origin(p, n);
    if balanced(l) {
        assert forall|i: int| 0 <= i <= n implies depth(e, i) >= 0 by {
            lemma_depth_origin(p, i);
            if i < n {
                lemma_origin_monotone(e, i, n);
            }
            if 0 < i {
                lemma_origin_monotone(e, 0, i);
            }
        }
    }
    if balanced(e) {
        assert forall|m: int| 0 <= m <= p.len() implies depth(l, m) >= 0 by {
            if m < p.len() {
                lemma_locate(e, m, n);
                let k = choose|k: int| 0 <= k < n && origin(e, k) <= m < #[trigger] origin(e, k + 1);
                lemma_depth_origin(p, k);
                lemma_fuse_at(p, k);
            }
        }
    }
}

/// Rendering a sequence of instructions and compiling the text gives the
/// same sequence, and compiles exactly when its brackets balance.
pub proof fn lemma_render_compiles(s: Seq<Instr>)
    ensures
        parse_chars(render(s)) == s,
        balanced(fuse(parse_chars(render(s)))) <==> balanced(lift(s)),
{
    lemma_parse_render(s);
    lemma_fusion_keeps_balance(s);
}

} // verus!
