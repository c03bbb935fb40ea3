//! Enumeration of all programs of a given length in lexicographic order.

use crate::instr::{fuse, Instr};
use crate::program::{balanced, Program};
use vstd::prelude::*;

verus! {

/// The digit of an instruction in the enumeration order.
pub open spec fn code_of(i: Instr) -> int {
    match i {
        Instr::Plus => 0,
        Instr::Minus => 1,
        Instr::Left => 2,
        Instr::Right => 3,
        Instr::StartLoop => 4,
        Instr::EndLoop => 5,
    }
}

/// The instruction of a digit in `0..6`.
pub open spec fn instr_of_code(d: int) -> Instr {
    if d == 0 {
        Instr::Plus
    } else if d == 1 {
        Instr::Minus
    } else if d == 2 {
        Instr::Left
    } else if d == 3 {
        Instr::Right
    } else if d == 4 {
        Instr::StartLoop
    } else {
        Instr::EndLoop
    }
}

pub open spec fn pow6(n: nat) -> nat
    decreases n,
{
    if n == 0 {
        1
    } else {
        6 * pow6((n - 1) as nat)
    }
}

/// A program read as a base-6 number, first instruction most significant.
pub open spec fn value(x: Seq<Instr>) -> int
    decreases x.len(),
{
    if x.len() == 0 {
        0
    } else {
        value(x.drop_last()) * 6 + code_of(x.last())
    }
}

/// The program of `len` instructions whose base-6 value is `i`.
pub open spec fn digits(len: nat, i: int) -> Seq<Instr>
    decreases len,
{
    if len == 0 {
        Seq::empty()
    } else {
        digits((len - 1) as nat, i / 6).push(instr_of_code(i % 6))
    }
}

/// All programs of `len` instructions, in lexicographic order.
pub open spec fn lex_order(len: nat) -> Seq<Seq<Instr>> {
    Seq::new(pow6(len), |i: int| digits(len, i))
}

/// The next program in lexicographic order: the last instruction advances
/// around the ring Plus, Minus, Left, Right, StartLoop, EndLoop, carrying
/// leftwards when it wraps; `None` after the last program.
pub open spec fn successor(x: Seq<Instr>) -> Option<Seq<Instr>>
    decreases x.len(),
{
    if x.len() == 0 {
        None
    } else if x.last() != Instr::EndLoop {
        Some(x.drop_last().push(instr_of_code(code_of(x.last()) + 1)))
    } else {
        match successor(x.drop_last()) {
            Some(p) => Some(p.push(Instr::Plus)),
            None => None,
        }
    }
}

/// The programs of `s` that compile, in order.
pub open spec fn compilable_only(s: Seq<Seq<Instr>>) -> Seq<Seq<Instr>>
    decreases s.len(),
{
    if s.len() == 0 {
        Seq::empty()
    } else if balanced(fuse(s.last())) {
        compilable_only(s.drop_last()).push(s.last())
    } else {
        compilable_only(s.drop_last())
    }
}

/// The compilable programs of every length in `start..end`, shortest first.
pub open spec fn chain(start: int, end: int) -> Seq<Seq<Instr>>
    decreases end - start,
{
    if end <= start {
        Seq::empty()
    } else {
        chain(start, end - 1) + compilable_only(lex_order((end - 1) as nat))
    }
}

pub open spec fn originals(ps: Seq<Program>) -> Seq<Seq<Instr>> {
    ps.map_values(|p: Program| p.original())
}

proof fn lemma_value_bounds(x: Seq<Instr>)
    ensures
        0 <= value(x) < pow6(x.len()),
    decreases x.len(),
{
    if x.len() > 0 {
        lemma_value_bounds(x.drop_last());
    }
}

proof fn lemma_successor(x: Seq<Instr>)
    ensures
        successor(x) matches Some(y) ==> y.len() == x.len() && value(y) == value(x) + 1,
        successor(x) is None <==> value(x) == pow6(x.len()) - 1,
    decreases x.len(),
{
    lemma_value_bounds(x);
    if x.len() > 0 {
        let p = x.drop_last();
        lemma_successor(p);
        lemma_value_bounds(p);
        if x.last() != Instr::EndLoop {
            let y = p.push(instr_of_code(code_of(x.last()) + 1));
            assert(y.drop_last() =~= p);
        } else {
            if let Some(q) = successor(p) {
                assert(q.push(Instr::Plus).drop_last() =~= q);
            }
        }
    }
}

proof fn lemma_digits_of_value(x: Seq<Instr>)
    ensures
        digits(x.len(), value(x)) == x,
    decreases x.len(),
{
    if x.len() > 0 {
        let p = x.drop_last();
        lemma_digits_of_value(p);
        let v = value(x);
        assert(v / 6 == value(p) && v % 6 == code_of(x.last())) by (nonlinear_arith)
            requires
                v == value(p) * 6 + code_of(x.last()),
                0 <= code_of(x.last()) < 6,
        ;
        assert(p.push(x.last()) =~= x);
    }
}

proof fn lemma_value_all_plus(x: Seq<Instr>)
    requires
        forall|j: int| 0 <= j < x.len() ==> x[j] == Instr::Plus,
    ensures
        value(x) == 0,
    decreases x.len(),
{
    if x.len() > 0 {
        lemma_value_all_plus(x.drop_last());
    }
}

/// The next instruction around the ring, and whether it wrapped.
fn next_instr(i: Instr) -> (r: (bool, Instr))
    ensures
        r.0 == (i == Instr::EndLoop),
        r.1 == if i == Instr::EndLoop {
            Instr::Plus
        } else {
            instr_of_code(code_of(i) + 1)
        },
{
    match i {
        Instr::Plus => (false, Instr::Minus),
        Instr::Minus => (false, Instr::Left),
        Instr::Left => (false, Instr::Right),
        Instr::Right => (false, Instr::StartLoop),
        Instr::StartLoop => (false, Instr::EndLoop),
        Instr::EndLoop => (true, Instr::Plus),
    }
}

pub open spec fn pluses(n: nat) -> Seq<Instr> {
    Seq::new(n, |j: int| Instr::Plus)
}

/// The next program in lexicographic order, or `None` after the last one.
pub fn next_program(program: &[Instr]) -> (r: Option<Vec<Instr>>)
    ensures
        match r {
            Some(v) => successor(program@) == Some(v@),
            None => successor(program@) is None,
        },
{
    let ghost x = program@;
    let n = program.len();
    let mut next: Vec<Instr> = Vec::new();
    let mut j: usize = 0;
    while j < n
        invariant
            n == x.len(),
            j <= n,
            x == program@,
            next@ == x.take(j as int),
        decreases n - j,
    {
        next.push(program[j]);
        assert(x.take(j + 1) =~= x.take(j as int).push(x[j as int]));
        j = j + 1;
    }
    assert(x.take(n as int) =~= x);
    let mut i: usize = n;
    assert(x.take(i as int) + pluses((n - i) as nat) =~= x);
    while i > 0
        invariant
            n == x.len(),
            x == program@,
            i <= n,
            next@ == x.take(i as int) + pluses((n - i) as nat),
            successor(x) == match successor(x.take(i as int)) {
                Some(p) => Some(p + pluses((n - i) as nat)),
                None => None,
            },
        decreases i,
    {
        let (wrapped, instr) = next_instr(program[i - 1]);
        next.set(i - 1, instr);
        let ghost t = x.take(i as int);
        assert(t.drop_last() =~= x.take(i - 1));
        if !wrapped {
            assert(next@ =~= t.drop_last().push(instr) + pluses((n - i) as nat));
            return Some(next);
        }
        assert(next@ =~= x.take(i - 1) + pluses((n - i + 1) as nat));
        proof {
            if let Some(p) = successor(x.take(i - 1)) {
                assert(p.push(Instr::Plus) + pluses((n - i) as nat) =~= p + pluses(
                    (n - i + 1) as nat,
                ));
            }
        }
        i = i - 1;
    }
    assert(x.take(0) =~= Seq::<Instr>::empty());
    None
}

/// All programs of `length` instructions, in lexicographic order: `length`
/// times Plus first, then each followed by its successor. There are `6^length`
/// of them; the empty program is the only one of length 0.
pub fn lexiographic_order(length: usize) -> (r: Vec<Vec<Instr>>)
    ensures
        r@.len() == pow6(length as nat),
        forall|i: int| 0 <= i < r@.len() ==> (#[trigger] r@[i])@ == lex_order(length as nat)[i],
{
    let mut cur: Vec<Instr> = Vec::new();
    let mut j: usize = 0;
    while j < length
        invariant
            j <= length,
            cur@ == pluses(j as nat),
        decreases length - j,
    {
        cur.push(Instr::Plus);
        assert(cur@ =~= pluses((j + 1) as nat));
        j = j + 1;
    }
    proof {
        lemma_value_all_plus(cur@);
        lemma_value_bounds(cur@);
    }
    let mut out: Vec<Vec<Instr>> = Vec::new();
    loop
        invariant_except_break
            cur@.len() == length,
            0 <= value(cur@) < pow6(length as nat),
            out@.len() == value(cur@),
            forall|i: int| 0 <= i < out@.len() ==> (#[trigger] out@[i])@ == digits(length as nat, i),
        ensures
            out@.len() == pow6(length as nat),
            forall|i: int| 0 <= i < out@.len() ==> (#[trigger] out@[i])@ == digits(length as nat, i),
        decreases pow6(length as nat) - value(cur@),
    {
        let next = next_program(cur.as_slice());
        proof {
            lemma_successor(cur@);
            lemma_digits_of_value(cur@);
        }
        let ghost v = value(cur@);
        out.push(cur);
        match next {
            Some(n) => {
                proof {
                    lemma_value_bounds(n@);
                }
                cur = n;
            },
            None => {
                break;
            },
        }
    }
    out
}

/// All compilable programs of `length` instructions, in lexicographic order.
pub fn brute_force_iterator(length: usize) -> (r: Vec<Program>)
    ensures
        originals(r@) == compilable_only(lex_order(length as nat)),
{
    let all = lexiographic_order(length);
    let ghost lex = lex_order(length as nat);
    let mut out: Vec<Program> = Vec::new();
    let mut i: usize = 0;
    while i < all.len()
        invariant
            i <= all@.len(),
            all@.len() == lex.len(),
            lex == lex_order(length as nat),
            forall|k: int| 0 <= k < all@.len() ==> (#[trigger] all@[k])@ == lex[k],
            originals(out@) == compilable_only(lex.take(i as int)),
        decreases all@.len() - i,
    {
        assert(lex.take(i + 1).drop_last() =~= lex.take(i as int));
        assert(all@[i as int]@ == lex[i as int]);
        let ghost before = out@;
        match Program::new(all[i].as_slice()) {
            Ok(p) => {
                out.push(p);
                assert(out@.drop_last() =~= before);
                assert(originals(out@) =~= originals(before).push(p.original()));
            },
            Err(_) => {},
        }
        i = i + 1;
    }
    assert(lex.take(i as int) =~= lex);
    out
}

/// All compilable programs of every length in `lengths`, shortest first and
/// each length in lexicographic order.
pub fn brute_force_chain(lengths: std::ops::Range<usize>) -> (r: Vec<Program>)
    ensures
        originals(r@) == chain(lengths.start as int, lengths.end as int),
{
    let start = lengths.start;
    let end = lengths.end;
    let mut out: Vec<Program> = Vec::new();
    let mut len: usize = start;
    while len < end
        invariant
            start <= len,
            len == start || len <= end,
            originals(out@) == chain(start as int, len as int),
        decreases end - len,
    {
        let mut more = brute_force_iterator(len);
        let ghost before = out@;
        let ghost added = more@;
        out.append(&mut more);
        assert(originals(out@) =~= originals(before) + originals(added));
        assert(chain(start as int, len + 1) == chain(start as int, len as int) + compilable_only(
            lex_order(len as nat),
        ));
        len = len + 1;
    }
    out
}

} // verus!
