//! Compiled programs: the base instructions, their fused form, and the
//! pairing of matched brackets in the fused form.

use crate::instr::{fuse, lift, parse_bytes, parse_chars, render, ExtendedInstr, Instr};
use crate::naive::lemma_fusion_keeps_balance;
use vstd::prelude::*;

verus! {

/// Why a sequence of instructions could not be compiled.
#[derive(Debug, Clone)]
pub enum CompileError {
    /// An `EndLoop` at this index of the extended form has no `StartLoop` before it.
    UnmatchedEndLoop { index: usize },
    /// These `StartLoop`s of the extended form, in increasing order, are never closed.
    UnmatchedStartLoops { indices: Vec<usize> },
}

/// How an extended instruction changes the bracket nesting depth.
pub open spec fn delta(e: ExtendedInstr) -> int {
    match e {
        ExtendedInstr::BaseInstr(Instr::StartLoop) => 1,
        ExtendedInstr::BaseInstr(Instr::EndLoop) => -1,
        _ => 0,
    }
}

/// The nesting depth just before index `k`: opened minus closed brackets in `e[0..k]`.
pub open spec fn depth(e: Seq<ExtendedInstr>, k: int) -> int
    decreases k,
{
    if k <= 0 {
        0
    } else {
        depth(e, k - 1) + delta(e[k - 1])
    }
}

pub open spec fn is_start(e: Seq<ExtendedInstr>, k: int) -> bool {
    e[k] == ExtendedInstr::BaseInstr(Instr::StartLoop)
}

pub open spec fn is_end(e: Seq<ExtendedInstr>, k: int) -> bool {
    e[k] == ExtendedInstr::BaseInstr(Instr::EndLoop)
}

pub open spec fn is_bracket(e: Seq<ExtendedInstr>, k: int) -> bool {
    is_start(e, k) || is_end(e, k)
}

/// No prefix of `e` closes more brackets than it opens.
pub open spec fn never_negative(e: Seq<ExtendedInstr>) -> bool {
    forall|k: int| 0 <= k <= e.len() ==> depth(e, k) >= 0
}

/// Every bracket of `e` is matched.
pub open spec fn balanced(e: Seq<ExtendedInstr>) -> bool {
    never_negative(e) && depth(e, e.len() as int) == 0
}

/// The `EndLoop` at `j` closes the `StartLoop` at `i`: it is the first
/// index after `i` where the depth falls back to that of `i`.
pub open spec fn matches_at(e: Seq<ExtendedInstr>, i: int, j: int) -> bool {
    &&& 0 <= i < j < e.len()
    &&& is_start(e, i)
    &&& is_end(e, j)
    &&& depth(e, j) == depth(e, i) + 1
    &&& forall|m: int| i < m <= j ==> depth(e, m) > depth(e, i)
}

/// `m` pairs every bracket of `e` with its partner, both ways, and nothing else.
pub open spec fn bracket_map(e: Seq<ExtendedInstr>, m: Seq<Option<usize>>) -> bool {
    &&& m.len() == e.len()
    &&& forall|k: int| 0 <= k < e.len() ==> (#[trigger] m[k] is Some <==> is_bracket(e, k))
    &&& forall|k: int|
        0 <= k < e.len() && #[trigger] m[k] is Some ==> {
            let j = m[k]->0 as int;
            &&& 0 <= j < e.len()
            &&& j != k
            &&& m[j] == Some(k as usize)
            &&& k < j ==> matches_at(e, k, j)
            &&& j < k ==> matches_at(e, j, k)
        }
}

/// `k` is the first `EndLoop` of `e` that closes more than has been opened.
pub open spec fn first_unmatched_end(e: Seq<ExtendedInstr>, k: int) -> bool {
    &&& 0 <= k < e.len()
    &&& depth(e, k + 1) < 0
    &&& forall|m: int| 0 <= m <= k ==> depth(e, m) >= 0
}

/// `idx` lists, in increasing order, the `StartLoop`s of `e` still open at its end:
/// the one at position `t` opens depth `t + 1` and the depth never falls back.
pub open spec fn open_starts(e: Seq<ExtendedInstr>, idx: Seq<usize>) -> bool {
    &&& idx.len() == depth(e, e.len() as int)
    &&& forall|t: int|
        0 <= t < idx.len() ==> {
            &&& #[trigger] idx[t] < e.len()
            &&& is_start(e, idx[t] as int)
            &&& depth(e, idx[t] as int) == t
            &&& forall|m: int| idx[t] < m <= e.len() ==> depth(e, m) > t
        }
}

/// What bracket matching of `e` gives: the map when `e` is balanced, else
/// the first unmatched `EndLoop`, else the `StartLoop`s left open.
pub open spec fn loop_dict_result(
    e: Seq<ExtendedInstr>,
    r: Result<Vec<Option<usize>>, CompileError>,
) -> bool {
    match r {
        Ok(m) => balanced(e) && bracket_map(e, m@),
        Err(CompileError::UnmatchedEndLoop { index }) => first_unmatched_end(e, index as int),
        Err(CompileError::UnmatchedStartLoops { indices }) => {
            &&& never_negative(e)
            &&& depth(e, e.len() as int) > 0
            &&& open_starts(e, indices@)
        },
    }
}

/// Matched bracket pairs never cross: a pair that opens inside another
/// also closes inside it.
pub proof fn lemma_pairs_nest(e: Seq<ExtendedInstr>, s: int, x: int, t: int, y: int)
    requires
        matches_at(e, s, x),
        matches_at(e, t, y),
        s < t < x,
    ensures
        y < x,
{
    assert(depth(e, t) > depth(e, s));
    if y >= x {
        if y == x {
        } else {
            assert(depth(e, x) > depth(e, t));
        }
    }
}

/// In a well-paired program, the partner of a `StartLoop` is the `EndLoop`
/// after it that closes it, and the other way round.
pub proof fn lemma_partner(e: Seq<ExtendedInstr>, m: Seq<Option<usize>>, k: int)
    requires
        bracket_map(e, m),
        0 <= k < e.len(),
        is_bracket(e, k),
    ensures
        m[k] is Some,
        is_start(e, k) ==> matches_at(e, k, m[k]->0 as int),
        is_end(e, k) ==> matches_at(e, m[k]->0 as int, k),
        m[m[k]->0 as int] == Some(k as usize),
{
    assert(m[k] is Some);
}

pub proof fn lemma_depth_step(e: Seq<ExtendedInstr>, k: int)
    requires
        0 <= k,
    ensures
        depth(e, k + 1) == depth(e, k) + delta(e[k]),
{
}

/// Pairs matched brackets of an extended program, both ways.
fn loop_dict(program: &[ExtendedInstr]) -> (r: Result<Vec<Option<usize>>, CompileError>)
    ensures
        loop_dict_result(program@, r),
        r is Ok <==> balanced(program@),
{
    let ghost e = program@;
    let n = program.len();
    let mut map: Vec<Option<usize>> = Vec::new();
    let mut j: usize = 0;
    while j < n
        invariant
            n == e.len(),
            j <= n,
            map@.len() == j,
            forall|x: int| 0 <= x < j ==> map@[x] is None,
        decreases n - j,
    {
        map.push(None);
        j = j + 1;
    }
    let mut stack: Vec<usize> = Vec::new();
    let mut k: usize = 0;
    while k < n
        invariant
            e == program@,
            n == e.len(),
            k <= n,
            map@.len() == n,
            stack@.len() == depth(e, k as int),
            forall|m: int| 0 <= m <= k ==> depth(e, m) >= 0,
            forall|t: int|
                0 <= t < stack@.len() ==> {
                    &&& #[trigger] stack@[t] < k
                    &&& is_start(e, stack@[t] as int)
                    &&& depth(e, stack@[t] as int) == t
                    &&& forall|m: int| stack@[t] < m <= k ==> depth(e, m) > t
                },
            forall|x: int| k <= x < n ==> #[trigger] map@[x] is None,
            forall|t: int| 0 <= t < stack@.len() ==> map@[#[trigger] stack@[t] as int] is None,
            forall|x: int|
                0 <= x < k && is_bracket(e, x) && #[trigger] map@[x] is None ==> exists|t: int|
                    0 <= t < stack@.len() && stack@[t] == x,
            forall|x: int| 0 <= x < n && #[trigger] map@[x] is Some ==> is_bracket(e, x),
            forall|x: int|
                0 <= x < n && #[trigger] map@[x] is Some ==> {
                    let y = map@[x]->0 as int;
                    &&& 0 <= y < k
                    &&& y != x
                    &&& map@[y] == Some(x as usize)
                    &&& x < y ==> matches_at(e, x, y)
                    &&& y < x ==> matches_at(e, y, x)
                },
        decreases n - k,
    {
        proof {
            lemma_depth_step(e, k as int);
        }
        let ghost old_stack = stack@;
        let ghost old_map = map@;
        match program[k] {
            ExtendedInstr::BaseInstr(Instr::StartLoop) => {
                stack.push(k);
                proof {
                    assert forall|x: int|
                        0 <= x < k + 1 && is_bracket(e, x) && #[trigger] map@[x]
                            is None implies exists|t: int|
                        0 <= t < stack@.len() && stack@[t] == x by {
                        if x == k {
                            assert(stack@[old_stack.len() as int] == x);
                        } else {
                            let t = choose|t: int| 0 <= t < old_stack.len() && old_stack[t] == x;
                            assert(stack@[t] == x);
                        }
                    }
                }
            },
            ExtendedInstr::BaseInstr(Instr::EndLoop) => {
                match stack.pop() {
                    Some(start) => {
                        assert(matches_at(e, start as int, k as int));
                        map.set(k, Some(start));
                        map.set(start, Some(k));
                        proof {
                            assert(old_stack[old_stack.len() - 1] == start);
                            assert forall|x: int|
                                0 <= x < k + 1 && is_bracket(e, x) && #[trigger] map@[x]
                                    is None implies exists|t: int|
                                0 <= t < stack@.len() && stack@[t] == x by {
                                let t = choose|t: int|
                                    0 <= t < old_stack.len() && old_stack[t] == x;
                                assert(t != old_stack.len() - 1);
                                assert(stack@[t] == x);
                            }
                            assert forall|x: int|
                                0 <= x < n && #[trigger] map@[x] is Some implies {
                                    let y = map@[x]->0 as int;
                                    &&& 0 <= y < k + 1
                                    &&& y != x
                                    &&& map@[y] == Some(x as usize)
                                    &&& x < y ==> matches_at(e, x, y)
                                    &&& y < x ==> matches_at(e, y, x)
                                } by {
                                if x != k && x != start {
                                    assert(old_map[x] is Some);
                                    let y = old_map[x]->0 as int;
                                    assert(old_map[y] is Some);
                                }
                            }
                        }
                    },
                    None => {
                        return Err(CompileError::UnmatchedEndLoop { index: k });
                    },
                }
            },
            _ => {},
        }
        k = k + 1;
    }
    if stack.len() > 0 {
        Err(CompileError::UnmatchedStartLoops { indices: stack })
    } else {
        proof {
            assert forall|x: int| 0 <= x < n && is_bracket(e, x) implies #[trigger] map@[x] is Some by {
                if map@[x] is None {
                    assert(exists|t: int| 0 <= t < stack@.len() && stack@[t] == x);
                }
            }
        }
        Ok(map)
    }
}

/// A copy of a vector of plain values.
fn copy_vec<T: Copy>(v: &Vec<T>) -> (r: Vec<T>)
    ensures
        r@ == v@,
{
    let mut out: Vec<T> = Vec::new();
    let mut i: usize = 0;
    while i < v.len()
        invariant
            i <= v@.len(),
            out@ == v@.take(i as int),
        decreases v@.len() - i,
    {
        out.push(v[i]);
        assert(v@.take(i + 1) =~= v@.take(i as int).push(v@[i as int]));
        i = i + 1;
    }
    assert(v@.take(i as int) =~= v@);
    out
}

/// A compiled program: its base instructions, their fused form, and the
/// pairing of matched brackets in the fused form.
#[derive(Debug)]
pub struct Program {
    original_instrs: Vec<Instr>,
    extended_instrs: Vec<ExtendedInstr>,
    loop_dict: Vec<Option<usize>>,
}

impl Program {
    /// The base instructions.
    pub closed spec fn original(&self) -> Seq<Instr> {
        self.original_instrs@
    }

    /// The extended (fused) instructions.
    pub closed spec fn extended(&self) -> Seq<ExtendedInstr> {
        self.extended_instrs@
    }

    /// For each index of the extended form, the index of its matching bracket.
    pub closed spec fn matching(&self) -> Seq<Option<usize>> {
        self.loop_dict@
    }

    /// A program as the builder makes it: the fusion of its base form, with
    /// balanced brackets, all of them paired. Every `Program` value has it.
    #[verifier::type_invariant]
    pub open spec fn wf(&self) -> bool {
        &&& self.extended() == fuse(self.original())
        &&& balanced(self.extended())
        &&& bracket_map(self.extended(), self.matching())
    }

    /// Compiles a sequence of base instructions; fails exactly when the
    /// brackets of its fused form are not balanced.
    pub fn new(instrs: &[Instr]) -> (r: Result<Program, CompileError>)
        ensures
            r is Ok <==> balanced(fuse(instrs@)),
            r is Ok <==> balanced(lift(instrs@)),
            match r {
                Ok(p) => p.wf() && p.original() == instrs@,
                Err(err) => loop_dict_result(fuse(instrs@), Err(err)),
            },
    {
        let mut original_instrs: Vec<Instr> = Vec::new();
        let mut i: usize = 0;
        while i < instrs.len()
            invariant
                i <= instrs@.len(),
                original_instrs@ == instrs@.take(i as int),
            decreases instrs@.len() - i,
        {
            original_instrs.push(instrs[i]);
            assert(instrs@.take(i + 1) =~= instrs@.take(i as int).push(instrs@[i as int]));
            i = i + 1;
        }
        assert(instrs@.take(i as int) =~= instrs@);
        proof {
            lemma_fusion_keeps_balance(instrs@);
        }
        let extended_instrs = ExtendedInstr::new(&original_instrs);
        match loop_dict(&extended_instrs) {
            Ok(loop_dict) => Ok(Program { original_instrs, extended_instrs, loop_dict }),
            Err(err) => Err(err),
        }
    }

    /// Compiles the instructions that a text spells; other characters are ignored.
    pub fn from_source(source: &str) -> (r: Result<Program, CompileError>)
        ensures
            r is Ok <==> balanced(fuse(parse_chars(source@))),
            r is Ok <==> balanced(lift(parse_chars(source@))),
            match r {
                Ok(p) => p.wf() && p.original() == parse_chars(source@),
                Err(err) => loop_dict_result(fuse(parse_chars(source@)), Err(err)),
            },
    {
        let instrs = Instr::parse(source);
        proof {
            lemma_fusion_keeps_balance(instrs@);
        }
        Program::new(&instrs)
    }

    /// Compiles the instructions that a byte string spells, a byte to a character.
    pub fn from_bytes(source: &[u8]) -> (r: Result<Program, CompileError>)
        ensures
            r is Ok <==> balanced(fuse(parse_bytes(source@))),
            r is Ok <==> balanced(lift(parse_bytes(source@))),
            match r {
                Ok(p) => p.wf() && p.original() == parse_bytes(source@),
                Err(err) => loop_dict_result(fuse(parse_bytes(source@)), Err(err)),
            },
    {
        let instrs = Instr::parse_bytes(source);
        proof {
            lemma_fusion_keeps_balance(instrs@);
        }
        Program::new(&instrs)
    }

    /// The extended instruction at index `i`, if there is one.
    pub fn get(&self, i: usize) -> (r: Option<ExtendedInstr>)
        ensures
            r == (if i < self.extended().len() {
                Some(self.extended()[i as int])
            } else {
                None
            }),
    {
        if i < self.extended_instrs.len() {
            Some(self.extended_instrs[i])
        } else {
            None
        }
    }

    /// The number of extended instructions.
    pub fn len(&self) -> (r: usize)
        ensures
            r == self.extended().len(),
    {
        self.extended_instrs.len()
    }

    /// The index of the bracket matching the one at `i`, if `i` holds a bracket.
    pub fn matching_loop(&self, i: usize) -> (r: Option<usize>)
        ensures
            i < self.extended().len() ==> r == self.matching()[i as int],
            i >= self.extended().len() ==> r is None,
    {
        proof {
            use_type_invariant(self);
        }
        if i < self.loop_dict.len() {
            self.loop_dict[i]
        } else {
            None
        }
    }

    /// The extended instructions.
    pub fn extended_instrs(&self) -> (r: &[ExtendedInstr])
        ensures
            r@ == self.extended(),
    {
        self.extended_instrs.as_slice()
    }

    /// The base instructions.
    pub fn original_instrs(&self) -> (r: &[Instr])
        ensures
            r@ == self.original(),
    {
        self.original_instrs.as_slice()
    }

    /// The text that spells the base instructions.
    pub fn to_source(&self) -> (r: String)
        ensures
            r@ == render(self.original()),
    {
        Instr::to_string(self.original_instrs.as_slice())
    }
}

impl Clone for Program {
    fn clone(&self) -> (r: Program)
        ensures
            r.original() == self.original(),
            r.extended() == self.extended(),
            r.matching() == self.matching(),
    {
        proof {
            use_type_invariant(self);
        }
        Program {
            original_instrs: copy_vec(&self.original_instrs),
            extended_instrs: copy_vec(&self.extended_instrs),
            loop_dict: copy_vec(&self.loop_dict),
        }
    }
}

impl<'a> vstd::std_specs::convert::TryFromSpecImpl<&'a str> for Program {
    open spec fn obeys_try_from_spec() -> bool {
        false
    }

    open spec fn try_from_spec(source: &'a str) -> Result<Program, CompileError> {
        arbitrary()
    }
}

impl<'a> TryFrom<&'a str> for Program {
    type Error = CompileError;

    fn try_from(source: &'a str) -> Result<Program, CompileError> {
        Program::from_source(source)
    }
}

impl<'a> vstd::std_specs::convert::TryFromSpecImpl<&'a [u8]> for Program {
    open spec fn obeys_try_from_spec() -> bool {
        false
    }

    open spec fn try_from_spec(source: &'a [u8]) -> Result<Program, CompileError> {
        arbitrary()
    }
}

impl<'a> TryFrom<&'a [u8]> for Program {
    type Error = CompileError;

    fn try_from(source: &'a [u8]) -> Result<Program, CompileError> {
        Program::from_bytes(source)
    }
}

/// The bracket pairing of a well-formed program is an involution that sends
/// each `StartLoop` forward to an `EndLoop`.
pub proof fn lemma_bracket_match_symmetric(p: &Program, k: int)
    requires
        p.wf(),
        0 <= k < p.extended().len(),
        p.matching()[k] is Some,
    ensures
        ({
            let j = p.matching()[k]->0 as int;
            &&& 0 <= j < p.extended().len()
            &&& p.matching()[j] == Some(k as usize)
            &&& k < j ==> is_start(p.extended(), k) && is_end(p.extended(), j)
            &&& j < k ==> is_end(p.extended(), k) && is_start(p.extended(), j)
        }),
{
    assert(p.matching()[k] is Some);
}

} // verus!
