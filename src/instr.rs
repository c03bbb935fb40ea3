//! Base instructions, their one-character spelling, and the peephole fusion
//! into extended instructions.

use vstd::prelude::*;
use vstd::string::StringExecFns;

verus! {

/// One of the six base instructions.
#[derive(Debug, Clone, Copy, PartialEq, Eq, Structural)]
pub enum Instr {
    Plus,
    Minus,
    Left,
    Right,
    StartLoop,
    EndLoop,
}

/// A base instruction, or one of the fused forms that stand for a short
/// run of base instructions.
#[derive(Debug, Clone, Copy, PartialEq, Eq, Structural)]
pub enum ExtendedInstr {
    /// A base instruction that was left as it is.
    BaseInstr(Instr),
    /// `[]`: a no-op on a zero cell, a certain non-terminating loop otherwise.
    LoopIfNonzero,
    /// `[+]`: counts the current cell up to zero.
    SetToZeroPlus,
    /// `[-]`: counts the current cell down to zero.
    SetToZeroMinus,
}

/// The instruction that a character spells, if any.
pub open spec fn instr_of_char(c: char) -> Option<Instr> {
    if c == '+' {
        Some(Instr::Plus)
    } else if c == '-' {
        Some(Instr::Minus)
    } else if c == '<' {
        Some(Instr::Left)
    } else if c == '>' {
        Some(Instr::Right)
    } else if c == '[' {
        Some(Instr::StartLoop)
    } else if c == ']' {
        Some(Instr::EndLoop)
    } else {
        None
    }
}

/// The character that spells an instruction.
pub open spec fn char_of_instr(i: Instr) -> char {
    match i {
        Instr::Plus => '+',
        Instr::Minus => '-',
        Instr::Left => '<',
        Instr::Right => '>',
        Instr::StartLoop => '[',
        Instr::EndLoop => ']',
    }
}

/// The character that shows an extended instruction.
pub open spec fn char_of_extended(e: ExtendedInstr) -> char {
    match e {
        ExtendedInstr::BaseInstr(i) => char_of_instr(i),
        ExtendedInstr::LoopIfNonzero => 'L',
        ExtendedInstr::SetToZeroPlus => '⊞',
        ExtendedInstr::SetToZeroMinus => '⊟',
    }
}

/// The instructions spelled by a text, in order; other characters are dropped.
pub open spec fn parse_chars(s: Seq<char>) -> Seq<Instr>
    decreases s.len(),
{
    if s.len() == 0 {
        Seq::empty()
    } else {
        let rest = parse_chars(s.drop_last());
        match instr_of_char(s.last()) {
            Some(i) => rest.push(i),
            None => rest,
        }
    }
}

/// The instructions spelled by a byte string, each byte read as one character.
pub open spec fn parse_bytes(s: Seq<u8>) -> Seq<Instr>
    decreases s.len(),
{
    if s.len() == 0 {
        Seq::empty()
    } else {
        let rest = parse_bytes(s.drop_last());
        match instr_of_char(s.last() as char) {
            Some(i) => rest.push(i),
            None => rest,
        }
    }
}

/// The base instructions, each as an unfused extended instruction.
pub open spec fn lift(p: Seq<Instr>) -> Seq<ExtendedInstr> {
    p.map_values(|i: Instr| ExtendedInstr::BaseInstr(i))
}

/// The text that spells a sequence of instructions.
pub open spec fn render(p: Seq<Instr>) -> Seq<char> {
    p.map_values(|i: Instr| char_of_instr(i))
}

/// The peephole fusion: at each position the longest of `[+]`, `[-]`, `[]`
/// is replaced by its fused instruction; anything else is kept.
pub open spec fn fuse(p: Seq<Instr>) -> Seq<ExtendedInstr>
    decreases p.len(),
{
    if p.len() == 0 {
        Seq::empty()
    } else if p.len() >= 3 && p[0] == Instr::StartLoop && p[1] == Instr::Plus && p[2]
        == Instr::EndLoop {
        seq![ExtendedInstr::SetToZeroPlus] + fuse(p.skip(3))
    } else if p.len() >= 3 && p[0] == Instr::StartLoop && p[1] == Instr::Minus && p[2]
        == Instr::EndLoop {
        seq![ExtendedInstr::SetToZeroMinus] + fuse(p.skip(3))
    } else if p.len() >= 2 && p[0] == Instr::StartLoop && p[1] == Instr::EndLoop {
        seq![ExtendedInstr::LoopIfNonzero] + fuse(p.skip(2))
    } else {
        seq![ExtendedInstr::BaseInstr(p[0])] + fuse(p.skip(1))
    }
}

/// Parsing the rendering of any instruction sequence gives that sequence back.
pub proof fn lemma_parse_render(p: Seq<Instr>)
    ensures
        parse_chars(render(p)) == p,
    decreases p.len(),
{
    if p.len() > 0 {
        let q = p.drop_last();
        assert(render(p).drop_last() =~= render(q));
        lemma_parse_render(q);
        assert(q.push(p.last()) =~= p);
    } else {
        assert(render(p) =~= Seq::<char>::empty());
    }
}

impl Instr {
    /// The instruction that a character spells, if any.
    pub fn from_char(c: char) -> (r: Option<Instr>)
        ensures
            r == instr_of_char(c),
    {
        match c {
            '+' => Some(Instr::Plus),
            '-' => Some(Instr::Minus),
            '<' => Some(Instr::Left),
            '>' => Some(Instr::Right),
            '[' => Some(Instr::StartLoop),
            ']' => Some(Instr::EndLoop),
            _ => None,
        }
    }

    /// The one-character text that spells this instruction.
    pub fn symbol(&self) -> (r: &'static str)
        ensures
            r@ == seq![char_of_instr(*self)],
    {
        proof {
            reveal_strlit("+");
            reveal_strlit("-");
            reveal_strlit("<");
            reveal_strlit(">");
            reveal_strlit("[");
            reveal_strlit("]");
        }
        match self {
            Instr::Plus => "+",
            Instr::Minus => "-",
            Instr::Left => "<",
            Instr::Right => ">",
            Instr::StartLoop => "[",
            Instr::EndLoop => "]",
        }
    }

    /// The text that spells a sequence of instructions.
    pub fn to_string(program: &[Instr]) -> (r: String)
        ensures
            r@ == render(program@),
    {
        let mut out = String::new();
        let mut i: usize = 0;
        while i < program.len()
            invariant
                i <= program@.len(),
                out@ == render(program@.take(i as int)),
            decreases program@.len() - i,
        {
            let s = program[i].symbol();
            out.append(s);
            assert(render(program@.take(i + 1)) =~= render(program@.take(i as int)) + seq![
                char_of_instr(program@[i as int]),
            ]);
            i = i + 1;
        }
        assert(program@.take(i as int) =~= program@);
        out
    }

    /// The instructions spelled by a text, in order; other characters are dropped.
    pub fn parse(source: &str) -> (r: Vec<Instr>)
        ensures
            r@ == parse_chars(source@),
    {
        let mut out: Vec<Instr> = Vec::new();
        let n = source.unicode_len();
        let mut i: usize = 0;
        while i < n
            invariant
                n == source@.len(),
                i <= n,
                out@ == parse_chars(source@.take(i as int)),
            decreases n - i,
        {
            let c = source.get_char(i);
            assert(source@.take(i + 1).drop_last() =~= source@.take(i as int));
            match Instr::from_char(c) {
                Some(instr) => out.push(instr),
                None => {},
            }
            i = i + 1;
        }
        assert(source@.take(i as int) =~= source@);
        out
    }

    /// The instructions spelled by a byte string, each byte read as one character.
    pub fn parse_bytes(source: &[u8]) -> (r: Vec<Instr>)
        ensures
            r@ == parse_bytes(source@),
    {
        let mut out: Vec<Instr> = Vec::new();
        let mut i: usize = 0;
        while i < source.len()
            invariant
                i <= source@.len(),
                out@ == parse_bytes(source@.take(i as int)),
            decreases source@.len() - i,
        {
            let c = source[i] as char;
            assert(source@.take(i + 1).drop_last() =~= source@.take(i as int));
            match Instr::from_char(c) {
                Some(instr) => out.push(instr),
                None => {},
            }
            i = i + 1;
        }
        assert(source@.take(i as int) =~= source@);
        out
    }
}

/// Each instruction's character parses back to it; no other character parses.
pub proof fn lemma_char_round_trip(i: Instr, c: char)
    ensures
        instr_of_char(char_of_instr(i)) == Some(i),
        instr_of_char(c) matches Some(j) ==> c == char_of_instr(j),
{
}

/// What `Instr::try_from` gives for a character.
pub open spec fn instr_result(c: char) -> Result<Instr, ()> {
    match instr_of_char(c) {
        Some(i) => Ok(i),
        None => Err(()),
    }
}

impl vstd::std_specs::convert::TryFromSpecImpl<char> for Instr {
    open spec fn obeys_try_from_spec() -> bool {
        true
    }

    open spec fn try_from_spec(c: char) -> Result<Instr, ()> {
        instr_result(c)
    }
}

impl TryFrom<char> for Instr {
    type Error = ();

    fn try_from(c: char) -> Result<Instr, ()> {
        match Instr::from_char(c) {
            Some(i) => Ok(i),
            None => Err(()),
        }
    }
}

impl vstd::std_specs::convert::TryFromSpecImpl<u8> for Instr {
    open spec fn obeys_try_from_spec() -> bool {
        true
    }

    open spec fn try_from_spec(b: u8) -> Result<Instr, ()> {
        instr_result(b as char)
    }
}

impl TryFrom<u8> for Instr {
    type Error = ();

    fn try_from(b: u8) -> Result<Instr, ()> {
        match Instr::from_char(b as char) {
            Some(i) => Ok(i),
            None => Err(()),
        }
    }
}

impl ExtendedInstr {
    /// The one-character text that shows this instruction.
    pub fn symbol(&self) -> (r: &'static str)
        ensures
            r@ == seq![char_of_extended(*self)],
    {
        proof {
            reveal_strlit("L");
            reveal_strlit("⊞");
            reveal_strlit("⊟");
        }
        match self {
            ExtendedInstr::BaseInstr(i) => i.symbol(),
            ExtendedInstr::LoopIfNonzero => "L",
            ExtendedInstr::SetToZeroPlus => "⊞",
            ExtendedInstr::SetToZeroMinus => "⊟",
        }
    }

    /// The extended form of a base program: the peephole fusion of `fuse`.
    pub fn new(program: &[Instr]) -> (r: Vec<ExtendedInstr>)
        ensures
            r@ == fuse(program@),
    {
        let mut out: Vec<ExtendedInstr> = Vec::new();
        let mut i: usize = 0;
        let n = program.len();
        assert(program@.skip(0) =~= program@);
        assert(out@ + fuse(program@) =~= fuse(program@));
        while i < n
            invariant
                n == program@.len(),
                i <= n,
                out@ + fuse(program@.skip(i as int)) == fuse(program@),
            decreases n - i,
        {
            let rest = Ghost(program@.skip(i as int));
            let this_instr = program[i];
            let step: usize;
            let e: ExtendedInstr;
            if this_instr == Instr::StartLoop && n - i > 2 && program[i + 1] == Instr::Plus
                && program[i + 2] == Instr::EndLoop {
                e = ExtendedInstr::SetToZeroPlus;
                step = 3;
            } else if this_instr == Instr::StartLoop && n - i > 2 && program[i + 1]
                == Instr::Minus && program[i + 2] == Instr::EndLoop {
                e = ExtendedInstr::SetToZeroMinus;
                step = 3;
            } else if this_instr == Instr::StartLoop && n - i > 1 && program[i + 1]
                == Instr::EndLoop {
                e = ExtendedInstr::LoopIfNonzero;
                step = 2;
            } else {
                e = ExtendedInstr::BaseInstr(this_instr);
                step = 1;
            }
            assert(rest@.skip(step as int) =~= program@.skip(i + step));
            assert(fuse(rest@) == seq![e] + fuse(rest@.skip(step as int)));
            out.push(e);
            assert(out@ + fuse(program@.skip(i + step)) =~= (out@.drop_last() + seq![e])
                + fuse(program@.skip(i + step)));
            i = i + step;
        }
        assert(out@ + fuse(program@.skip(i as int)) =~= out@);
        out
    }
}

} // verus!
