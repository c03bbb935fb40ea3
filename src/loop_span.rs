//! Loop spans: the memory footprint of one iteration of a repeat construct,
//! and the tracker that compares iterations of the same construct.

use crate::instr::{ExtendedInstr, Instr};
use crate::program::{is_start, Program};
use vstd::prelude::*;

verus! {

/// A loop span as a mathematical value.
pub struct SpanView {
    /// The tape as it was when the iteration began.
    pub tape: Seq<u8>,
    /// The tape pointer when the iteration began.
    pub start: int,
    /// The tape pointer now.
    pub current: int,
    /// The lowest tape index visited since the iteration began.
    pub min: int,
    /// The highest tape index visited since the iteration began.
    pub max: int,
}

/// The tracker as a mathematical value, both tables indexed by the
/// extended-instruction index of a `StartLoop`.
pub struct HistoryView {
    /// The span being recorded for each loop, if any.
    pub active: Seq<Option<SpanView>>,
    /// The spans completed for each loop since execution last entered it;
    /// present exactly at the indices of `StartLoop`s.
    pub past: Seq<Option<Seq<SpanView>>>,
}

/// The largest index of a nonzero byte, or 0 if there is none.
pub open spec fn last_nonzero(s: Seq<u8>) -> int
    decreases s.len(),
{
    if s.len() == 0 {
        0
    } else if s.last() != 0 {
        s.len() - 1
    } else {
        last_nonzero(s.drop_last())
    }
}

pub open spec fn min_int(a: int, b: int) -> int {
    if a <= b {
        a
    } else {
        b
    }
}

pub open spec fn max_int(a: int, b: int) -> int {
    if a >= b {
        a
    } else {
        b
    }
}

/// The excursion bounds hold the start and current pointers.
pub open spec fn span_wf(s: SpanView) -> bool {
    0 <= s.min <= s.start <= s.max && s.min <= s.current <= s.max
}

/// Net pointer motion across the iteration.
pub open spec fn displacement(s: SpanView) -> int {
    s.current - s.start
}

/// The bounds `[lo, hi)` of the part of the starting tape that can still
/// matter to later iterations.
pub open spec fn mask_bounds(s: SpanView) -> (int, int) {
    let lnz = last_nonzero(s.tape);
    let lo = min_int(s.min, lnz);
    let hi = min_int(s.max, lnz);
    if s.tape.len() == 0 {
        (0, 0)
    } else if displacement(s) < 0 {
        (0, hi + 1)
    } else if displacement(s) > 0 {
        (lo, s.tape.len() as int)
    } else if lo <= hi {
        (lo, hi + 1)
    } else {
        (0, 0)
    }
}

/// The part of the starting tape that can still matter to later iterations:
/// from the left end when the iteration drifts left, to the right end when
/// it drifts right, the visited window otherwise; trailing zeros cut off.
pub open spec fn memory_mask(s: SpanView) -> Seq<u8> {
    s.tape.subrange(mask_bounds(s).0, mask_bounds(s).1)
}

/// Two iterations began in states that no later step can tell apart.
pub open spec fn spans_equivalent(a: SpanView, b: SpanView) -> bool {
    displacement(a) == displacement(b) && memory_mask(a) == memory_mask(b)
}

/// The first of `prior` that is equivalent to `c`, if any.
pub open spec fn first_equivalent(prior: Seq<SpanView>, c: SpanView) -> Option<SpanView>
    decreases prior.len(),
{
    if prior.len() == 0 {
        None
    } else if spans_equivalent(prior[0], c) {
        Some(prior[0])
    } else {
        first_equivalent(prior.skip(1), c)
    }
}

/// A fresh span for an iteration that begins at `ptr` on `tape`.
pub open spec fn span_begin(tape: Seq<u8>, ptr: int) -> SpanView {
    SpanView { tape, start: ptr, current: ptr, min: ptr, max: ptr }
}

/// A span after a left move; the pointer stops at 0.
pub open spec fn span_left(s: SpanView) -> SpanView {
    let c = if s.current > 0 {
        s.current - 1
    } else {
        0
    };
    SpanView { current: c, min: min_int(s.min, c), ..s }
}

/// A span after a right move.
pub open spec fn span_right(s: SpanView) -> SpanView {
    let c = s.current + 1;
    SpanView { current: c, max: max_int(s.max, c), ..s }
}

pub open spec fn opt_left(o: Option<SpanView>) -> Option<SpanView> {
    match o {
        Some(s) => Some(span_left(s)),
        None => None,
    }
}

pub open spec fn opt_right(o: Option<SpanView>) -> Option<SpanView> {
    match o {
        Some(s) => Some(span_right(s)),
        None => None,
    }
}

/// Every active span sees a left move.
pub open spec fn history_left(h: HistoryView) -> HistoryView {
    HistoryView { active: h.active.map_values(|o: Option<SpanView>| opt_left(o)), ..h }
}

/// Every active span sees a right move.
pub open spec fn history_right(h: HistoryView) -> HistoryView {
    HistoryView { active: h.active.map_values(|o: Option<SpanView>| opt_right(o)), ..h }
}

/// A span opens for loop `k` on `tape` at `ptr`.
pub open spec fn history_start(h: HistoryView, tape: Seq<u8>, ptr: int, k: int) -> HistoryView {
    HistoryView { active: h.active.update(k, Some(span_begin(tape, ptr))), ..h }
}

/// The active span of loop `k` closes and joins its history.
pub open spec fn history_end(h: HistoryView, k: int) -> HistoryView {
    HistoryView {
        active: h.active.update(k, None),
        past: h.past.update(k, Some(h.past[k]->0.push(h.active[k]->0))),
    }
}

/// The cycle check on closing loop `k`: a prior span equivalent to the one
/// just closed, paired with it.
pub open spec fn history_end_check(h: HistoryView, k: int) -> Option<(SpanView, SpanView)> {
    match first_equivalent(h.past[k]->0, h.active[k]->0) {
        Some(p) => Some((p, h.active[k]->0)),
        None => None,
    }
}

/// The history of loop `k` is forgotten.
pub open spec fn history_reset(h: HistoryView, k: int) -> HistoryView {
    HistoryView { past: h.past.update(k, Some(Seq::empty())), ..h }
}

/// Tape cells held by the open spans.
pub open spec fn active_cells(a: Seq<Option<SpanView>>) -> int
    decreases a.len(),
{
    if a.len() == 0 {
        0
    } else {
        active_cells(a.drop_last()) + match a.last() {
            Some(s) => s.tape.len() as int,
            None => 0,
        }
    }
}

/// Tape cells held by a list of spans.
pub open spec fn spans_cells(a: Seq<SpanView>) -> int
    decreases a.len(),
{
    if a.len() == 0 {
        0
    } else {
        spans_cells(a.drop_last()) + a.last().tape.len()
    }
}

/// Tape cells held by the completed spans.
pub open spec fn past_cells(a: Seq<Option<Seq<SpanView>>>) -> int
    decreases a.len(),
{
    if a.len() == 0 {
        0
    } else {
        past_cells(a.drop_last()) + match a.last() {
            Some(spans) => spans_cells(spans),
            None => 0,
        }
    }
}

/// Tape cells held by all the snapshots of a tracker.
pub open spec fn history_cells(h: HistoryView) -> int {
    active_cells(h.active) + past_cells(h.past)
}

/// `a + b`, or `usize::MAX` where that does not fit.
pub fn add_saturating(a: usize, b: usize) -> (r: usize)
    ensures
        r == min_int(a + b, usize::MAX as int),
{
    if a <= usize::MAX - b {
        a + b
    } else {
        usize::MAX
    }
}

/// Equivalence of spans is reflexive and symmetric.
pub proof fn lemma_spans_equivalent_refl_sym(x: SpanView, y: SpanView)
    ensures
        spans_equivalent(x, x),
        spans_equivalent(x, y) <==> spans_equivalent(y, x),
{
}

/// The memory footprint of one in-progress iteration of a repeat construct.
#[derive(Debug)]
pub struct LoopSpan {
    /// A snapshot of the tape at the start of the iteration.
    pub memory_at_loop_start: Vec<u8>,
    /// The tape pointer at the start of the iteration.
    pub starting_memory_pointer: usize,
    /// The tape pointer now.
    pub current_memory_pointer: usize,
    /// The lowest tape index visited during the iteration.
    pub min_index: usize,
    /// The highest tape index visited during the iteration.
    pub max_index: usize,
}

impl View for LoopSpan {
    type V = SpanView;

    open spec fn view(&self) -> SpanView {
        SpanView {
            tape: self.memory_at_loop_start@,
            start: self.starting_memory_pointer as int,
            current: self.current_memory_pointer as int,
            min: self.min_index as int,
            max: self.max_index as int,
        }
    }
}

impl Clone for LoopSpan {
    fn clone(&self) -> (r: LoopSpan)
        ensures
            r@ == self@,
    {
        let memory_at_loop_start = self.memory_at_loop_start.clone();
        assert(memory_at_loop_start@ =~= self.memory_at_loop_start@);
        LoopSpan {
            memory_at_loop_start,
            starting_memory_pointer: self.starting_memory_pointer,
            current_memory_pointer: self.current_memory_pointer,
            min_index: self.min_index,
            max_index: self.max_index,
        }
    }
}

fn last_nonzero_exec(s: &[u8]) -> (r: usize)
    ensures
        r == last_nonzero(s@),
        s@.len() > 0 ==> r < s@.len(),
{
    let mut i: usize = s.len();
    assert(s@.take(i as int) =~= s@);
    while i > 0
        invariant
            i <= s@.len(),
            last_nonzero(s@) == last_nonzero(s@.take(i as int)),
            i < s@.len() ==> forall|j: int| i <= j < s@.len() ==> s@[j] == 0,
        decreases i,
    {
        assert(s@.take(i as int).drop_last() =~= s@.take(i - 1));
        if s[i - 1] != 0 {
            return i - 1;
        }
        i = i - 1;
    }
    0
}

impl LoopSpan {
    /// A fresh span for an iteration that begins at `starting_position` on `memory`.
    pub fn new(memory: Vec<u8>, starting_position: usize) -> (r: LoopSpan)
        ensures
            r@ == span_begin(memory@, starting_position as int),
    {
        LoopSpan {
            memory_at_loop_start: memory,
            starting_memory_pointer: starting_position,
            current_memory_pointer: starting_position,
            min_index: starting_position,
            max_index: starting_position,
        }
    }

    /// Records a left move; the pointer stops at 0.
    pub fn record_left(&mut self)
        ensures
            final(self)@ == span_left(old(self)@),
    {
        self.current_memory_pointer = if self.current_memory_pointer > 0 {
            self.current_memory_pointer - 1
        } else {
            0
        };
        if self.current_memory_pointer < self.min_index {
            self.min_index = self.current_memory_pointer;
        }
    }

    /// Records a right move.
    pub fn record_right(&mut self)
        requires
            old(self).current_memory_pointer < usize::MAX,
        ensures
            final(self)@ == span_right(old(self)@),
    {
        self.current_memory_pointer = self.current_memory_pointer + 1;
        if self.current_memory_pointer > self.max_index {
            self.max_index = self.current_memory_pointer;
        }
    }

    /// The part of the starting tape that can still matter to later iterations.
    pub fn memory_mask(&self) -> (r: &[u8])
        ensures
            r@ == memory_mask(self@),
    {
        let len = self.memory_at_loop_start.len();
        let lnz = last_nonzero_exec(self.memory_at_loop_start.as_slice());
        let lo = if self.min_index <= lnz {
            self.min_index
        } else {
            lnz
        };
        let hi = if self.max_index <= lnz {
            self.max_index
        } else {
            lnz
        };
        let (a, b): (usize, usize) = if len == 0 {
            (0, 0)
        } else if self.current_memory_pointer < self.starting_memory_pointer {
            (0, hi + 1)
        } else if self.current_memory_pointer > self.starting_memory_pointer {
            (lo, len)
        } else if lo <= hi {
            (lo, hi + 1)
        } else {
            (0, 0)
        };
        &self.memory_at_loop_start.as_slice()[a..b]
    }

    /// Net pointer motion across the iteration.
    pub fn displacement(&self) -> (r: isize)
        requires
            self.current_memory_pointer <= isize::MAX,
            self.starting_memory_pointer <= isize::MAX,
        ensures
            r == displacement(self@),
    {
        self.current_memory_pointer as isize - self.starting_memory_pointer as isize
    }

    /// The number of tape cells the snapshot holds.
    pub fn total_cells_allocated(&self) -> (r: usize)
        ensures
            r == self@.tape.len(),
    {
        self.memory_at_loop_start.len()
    }

    /// Whether two iterations began in states that no later step can tell apart.
    pub fn equivalent(&self, other: &LoopSpan) -> (r: bool)
        ensures
            r == spans_equivalent(self@, other@),
    {
        let same_displacement = if self.current_memory_pointer >= self.starting_memory_pointer {
            other.current_memory_pointer >= other.starting_memory_pointer
                && self.current_memory_pointer - self.starting_memory_pointer
                == other.current_memory_pointer - other.starting_memory_pointer
        } else {
            other.current_memory_pointer < other.starting_memory_pointer
                && self.starting_memory_pointer - self.current_memory_pointer
                == other.starting_memory_pointer - other.current_memory_pointer
        };
        if !same_displacement {
            return false;
        }
        let a = self.memory_mask();
        let b = other.memory_mask();
        if a.len() != b.len() {
            return false;
        }
        let mut i: usize = 0;
        while i < a.len()
            invariant
                a@ == memory_mask(self@),
                b@ == memory_mask(other@),
                displacement(self@) == displacement(other@),
                a@.len() == b@.len(),
                i <= a@.len(),
                forall|j: int| 0 <= j < i ==> a@[j] == b@[j],
            decreases a@.len() - i,
        {
            if a[i] != b[i] {
                assert(a@[i as int] != b@[i as int]);
                return false;
            }
            i = i + 1;
        }
        assert(a@ =~= b@);
        true
    }
}

impl PartialEq for LoopSpan {
    fn eq(&self, other: &LoopSpan) -> (r: bool) {
        self.equivalent(other)
    }
}

impl vstd::std_specs::cmp::PartialEqSpecImpl for LoopSpan {
    open spec fn obeys_eq_spec() -> bool {
        true
    }

    open spec fn eq_spec(&self, other: &LoopSpan) -> bool {
        spans_equivalent(self@, other@)
    }
}

impl Eq for LoopSpan {

}

pub open spec fn opt_view(o: Option<LoopSpan>) -> Option<SpanView> {
    match o {
        Some(s) => Some(s@),
        None => None,
    }
}

pub open spec fn spans_view(v: Vec<LoopSpan>) -> Seq<SpanView> {
    v@.map_values(|s: LoopSpan| s@)
}

pub open spec fn opt_spans_view(o: Option<Vec<LoopSpan>>) -> Option<Seq<SpanView>> {
    match o {
        Some(v) => Some(spans_view(v)),
        None => None,
    }
}

/// Per repeat construct, the span being recorded and the spans completed
/// since execution last entered it; both indexed by the extended-instruction
/// index of the construct's `StartLoop`.
#[derive(Debug)]
pub struct LoopSpanHistory {
    active_loop_spans: Vec<Option<LoopSpan>>,
    single_loop_spans: Vec<Option<Vec<LoopSpan>>>,
}

impl View for LoopSpanHistory {
    type V = HistoryView;

    closed spec fn view(&self) -> HistoryView {
        HistoryView {
            active: self.active_loop_spans@.map_values(|o: Option<LoopSpan>| opt_view(o)),
            past: self.single_loop_spans@.map_values(|o: Option<Vec<LoopSpan>>| opt_spans_view(o)),
        }
    }
}

impl Clone for LoopSpanHistory {
    fn clone(&self) -> (r: LoopSpanHistory)
        ensures
            r@ == self@,
    {
        let mut active_loop_spans: Vec<Option<LoopSpan>> = Vec::new();
        let mut i: usize = 0;
        while i < self.active_loop_spans.len()
            invariant
                i <= self.active_loop_spans@.len(),
                active_loop_spans@.len() == i,
                forall|j: int|
                    0 <= j < i ==> opt_view(#[trigger] active_loop_spans@[j]) == opt_view(
                        self.active_loop_spans@[j],
                    ),
            decreases self.active_loop_spans@.len() - i,
        {
            let copy = match &self.active_loop_spans[i] {
                Some(span) => Some(span.clone()),
                None => None,
            };
            active_loop_spans.push(copy);
            i = i + 1;
        }
        let mut single_loop_spans: Vec<Option<Vec<LoopSpan>>> = Vec::new();
        let mut k: usize = 0;
        while k < self.single_loop_spans.len()
            invariant
                k <= self.single_loop_spans@.len(),
                single_loop_spans@.len() == k,
                forall|j: int|
                    0 <= j < k ==> opt_spans_view(#[trigger] single_loop_spans@[j])
                        == opt_spans_view(self.single_loop_spans@[j]),
            decreases self.single_loop_spans@.len() - k,
        {
            let copy = match &self.single_loop_spans[k] {
                Some(spans) => Some(clone_spans(spans)),
                None => None,
            };
            single_loop_spans.push(copy);
            k = k + 1;
        }
        let r = LoopSpanHistory { active_loop_spans, single_loop_spans };
        assert(r@.active =~= self@.active);
        assert(r@.past =~= self@.past);
        r
    }
}

/// A copy of a list of spans.
fn clone_spans(v: &Vec<LoopSpan>) -> (r: Vec<LoopSpan>)
    ensures
        spans_view(r) == spans_view(*v),
{
    let mut out: Vec<LoopSpan> = Vec::new();
    let mut i: usize = 0;
    while i < v.len()
        invariant
            i <= v@.len(),
            out@.len() == i,
            forall|j: int| 0 <= j < i ==> (#[trigger] out@[j])@ == v@[j]@,
        decreases v@.len() - i,
    {
        out.push(v[i].clone());
        i = i + 1;
    }
    assert(spans_view(out) =~= spans_view(*v));
    out
}

impl LoopSpanHistory {
    /// A tracker for `program`: no span open, and an empty history exactly
    /// at each `StartLoop` of the extended form.
    pub fn new(program: &Program) -> (r: LoopSpanHistory)
        ensures
            r@.active == Seq::new(program.extended().len(), |i: int| None::<SpanView>),
            r@.past == Seq::new(
                program.extended().len(),
                |i: int|
                    if is_start(program.extended(), i) {
                        Some(Seq::<SpanView>::empty())
                    } else {
                        None
                    },
            ),
    {
        let instrs = program.extended_instrs();
        let len = instrs.len();
        let ghost ext = program.extended();
        let mut active_loop_spans: Vec<Option<LoopSpan>> = Vec::new();
        let mut single_loop_spans: Vec<Option<Vec<LoopSpan>>> = Vec::new();
        let mut i: usize = 0;
        while i < len
            invariant
                instrs@ == ext,
                len == ext.len(),
                i <= len,
                active_loop_spans@.len() == i,
                single_loop_spans@.len() == i,
                forall|j: int| 0 <= j < i ==> active_loop_spans@[j] is None,
                forall|j: int|
                    0 <= j < i ==> (#[trigger] single_loop_spans@[j] is Some <==> is_start(ext, j)),
                forall|j: int|
                    0 <= j < i && #[trigger] single_loop_spans@[j] is Some
                        ==> single_loop_spans@[j]->0@.len() == 0,
            decreases len - i,
        {
            active_loop_spans.push(None);
            if instrs[i] == ExtendedInstr::BaseInstr(Instr::StartLoop) {
                single_loop_spans.push(Some(Vec::new()));
            } else {
                single_loop_spans.push(None);
            }
            i = i + 1;
        }
        let r = LoopSpanHistory { active_loop_spans, single_loop_spans };
        assert forall|j: int| 0 <= j < len implies #[trigger] r@.past[j] == if is_start(ext, j) {
            Some(Seq::<SpanView>::empty())
        } else {
            None
        } by {
            if is_start(ext, j) {
                assert(spans_view(r.single_loop_spans@[j]->0) =~= Seq::<SpanView>::empty());
            }
        }
        assert(r@.active =~= Seq::new(len as nat, |i: int| None::<SpanView>));
        assert(r@.past =~= Seq::new(
            len as nat,
            |i: int|
                if is_start(ext, i) {
                    Some(Seq::<SpanView>::empty())
                } else {
                    None
                },
        ));
        r
    }

    /// Every active span records a left move.
    pub fn record_left(&mut self)
        ensures
            final(self)@ == history_left(old(self)@),
    {
        let n = self.active_loop_spans.len();
        let mut i: usize = 0;
        while i < n
            invariant
                n == self.active_loop_spans@.len(),
                i <= n,
                self.single_loop_spans == old(self).single_loop_spans,
                forall|j: int|
                    0 <= j < n ==> #[trigger] opt_view(self.active_loop_spans@[j]) == if j < i {
                        opt_left(opt_view(old(self).active_loop_spans@[j]))
                    } else {
                        opt_view(old(self).active_loop_spans@[j])
                    },
            decreases n - i,
        {
            let ghost before = self.active_loop_spans@;
            match &mut self.active_loop_spans[i] {
                Some(span) => span.record_left(),
                None => {},
            }
            assert(opt_view(self.active_loop_spans@[i as int]) == opt_left(opt_view(before[i as int])));
            assert(forall|j: int| 0 <= j < n && j != i ==> self.active_loop_spans@[j] == before[j]);
            i = i + 1;
        }
        assert(self@.active =~= history_left(old(self)@).active);
    }

    /// Every active span records a right move.
    pub fn record_right(&mut self)
        requires
            forall|j: int|
                0 <= j < old(self)@.active.len() && #[trigger] old(self)@.active[j] is Some
                    ==> old(self)@.active[j]->0.current < usize::MAX,
        ensures
            final(self)@ == history_right(old(self)@),
    {
        let n = self.active_loop_spans.len();
        let mut i: usize = 0;
        while i < n
            invariant
                n == self.active_loop_spans@.len(),
                i <= n,
                self.single_loop_spans == old(self).single_loop_spans,
                forall|j: int|
                    0 <= j < n && #[trigger] old(self)@.active[j] is Some
                        ==> old(self)@.active[j]->0.current < usize::MAX,
                old(self)@.active.len() == n,
                forall|j: int|
                    0 <= j < n ==> #[trigger] opt_view(self.active_loop_spans@[j]) == if j < i {
                        opt_right(opt_view(old(self).active_loop_spans@[j]))
                    } else {
                        opt_view(old(self).active_loop_spans@[j])
                    },
            decreases n - i,
        {
            assert(opt_view(self.active_loop_spans@[i as int]) == old(self)@.active[i as int]);
            let ghost before = self.active_loop_spans@;
            match &mut self.active_loop_spans[i] {
                Some(span) => span.record_right(),
                None => {},
            }
            assert(opt_view(self.active_loop_spans@[i as int]) == opt_right(opt_view(before[i as int])));
            assert(forall|j: int| 0 <= j < n && j != i ==> self.active_loop_spans@[j] == before[j]);
            i = i + 1;
        }
        assert(self@.active =~= history_right(old(self)@).active);
    }

    /// Opens a span for loop `loop_index`, which must have none open.
    pub fn start_recording_loop_span(
        &mut self,
        memory: Vec<u8>,
        starting_position: usize,
        loop_index: usize,
    )
        requires
            loop_index < old(self)@.active.len(),
            old(self)@.active[loop_index as int] is None,
        ensures
            final(self)@ == history_start(
                old(self)@,
                memory@,
                starting_position as int,
                loop_index as int,
            ),
    {
        let span = LoopSpan::new(memory, starting_position);
        self.active_loop_spans.set(loop_index, Some(span));
        assert(self@.active =~= old(self)@.active.update(
            loop_index as int,
            Some(span_begin(memory@, starting_position as int)),
        ));
    }

    /// Closes the open span of loop `loop_index` and appends it to the loop's
    /// history; returns the first prior span equivalent to it, with it.
    pub fn end_recording_loop_span(&mut self, loop_index: usize) -> (r: Option<
        (LoopSpan, LoopSpan),
    >)
        requires
            loop_index < old(self)@.active.len(),
            loop_index < old(self)@.past.len(),
            old(self)@.active[loop_index as int] is Some,
            old(self)@.past[loop_index as int] is Some,
        ensures
            final(self)@ == history_end(old(self)@, loop_index as int),
            match r {
                Some((p, c)) => history_end_check(old(self)@, loop_index as int) == Some(
                    (p@, c@),
                ),
                None => history_end_check(old(self)@, loop_index as int) is None,
            },
    {
        let ghost h = self@;
        let mut slot: Option<LoopSpan> = None;
        std::mem::swap(&mut slot, &mut self.active_loop_spans[loop_index]);
        let span = match slot {
            Some(span) => span,
            None => {
                proof {
                    assert(opt_view(old(self).active_loop_spans@[loop_index as int]) is Some);
                }
                return None;
            },
        };
        assert(span@ == h.active[loop_index as int]->0);
        let mut entry: Option<Vec<LoopSpan>> = None;
        std::mem::swap(&mut entry, &mut self.single_loop_spans[loop_index]);
        let mut spans = match entry {
            Some(spans) => spans,
            None => {
                proof {
                    assert(opt_spans_view(old(self).single_loop_spans@[loop_index as int]) is Some);
                }
                return None;
            },
        };
        assert(spans_view(spans) == h.past[loop_index as int]->0);
        let found = first_equivalent_exec(&spans, &span);
        spans.push(span);
        self.single_loop_spans.set(loop_index, Some(spans));
        proof {
            assert(spans_view(spans) =~= h.past[loop_index as int]->0.push(h.active[loop_index as int]->0));
            assert(self@.active =~= history_end(h, loop_index as int).active);
            assert(self@.past =~= history_end(h, loop_index as int).past);
        }
        found
    }

    /// Forgets the history of loop `loop_index`.
    pub fn reset_past_loop_spans(&mut self, loop_index: usize)
        requires
            loop_index < old(self)@.past.len(),
        ensures
            final(self)@ == history_reset(old(self)@, loop_index as int),
    {
        self.single_loop_spans.set(loop_index, Some(Vec::new()));
        assert(spans_view(self.single_loop_spans@[loop_index as int]->0) =~= Seq::<SpanView>::empty());
        assert(self@.past =~= history_reset(old(self)@, loop_index as int).past);
    }

    /// Tape cells held by all the snapshots, or `usize::MAX` if more.
    pub fn total_cells_allocated(&self) -> (r: usize)
        ensures
            r == min_int(history_cells(self@), usize::MAX as int),
    {
        let ghost h = self@;
        let mut total: usize = 0;
        let mut i: usize = 0;
        while i < self.active_loop_spans.len()
            invariant
                h == self@,
                i <= h.active.len(),
                total == min_int(active_cells(h.active.take(i as int)), usize::MAX as int),
            decreases h.active.len() - i,
        {
            assert(h.active.take(i + 1).drop_last() =~= h.active.take(i as int));
            match &self.active_loop_spans[i] {
                Some(span) => {
                    total = add_saturating(total, span.total_cells_allocated());
                },
                None => {},
            }
            i = i + 1;
        }
        assert(h.active.take(i as int) =~= h.active);
        let ghost active_total = active_cells(h.active);
        let mut past: usize = 0;
        let mut k: usize = 0;
        while k < self.single_loop_spans.len()
            invariant
                h == self@,
                k <= h.past.len(),
                past == min_int(past_cells(h.past.take(k as int)), usize::MAX as int),
            decreases h.past.len() - k,
        {
            assert(h.past.take(k + 1).drop_last() =~= h.past.take(k as int));
            match &self.single_loop_spans[k] {
                Some(spans) => {
                    past = add_saturating(past, spans_cells_exec(spans));
                },
                None => {},
            }
            k = k + 1;
        }
        assert(h.past.take(k as int) =~= h.past);
        add_saturating(total, past)
    }

    /// The span being recorded for each loop, by `StartLoop` index.
    pub fn active_loop_spans(&self) -> (r: &Vec<Option<LoopSpan>>)
        ensures
            r@.map_values(|o: Option<LoopSpan>| opt_view(o)) == self@.active,
    {
        &self.active_loop_spans
    }

    /// The spans completed for each loop since it was last entered, by
    /// `StartLoop` index; `None` at every other index.
    pub fn single_loop_spans(&self) -> (r: &Vec<Option<Vec<LoopSpan>>>)
        ensures
            r@.map_values(|o: Option<Vec<LoopSpan>>| opt_spans_view(o)) == self@.past,
    {
        &self.single_loop_spans
    }
}

/// Tape cells held by a list of spans, or `usize::MAX` if more.
fn spans_cells_exec(v: &Vec<LoopSpan>) -> (r: usize)
    ensures
        r == min_int(spans_cells(spans_view(*v)), usize::MAX as int),
{
    let ghost all = spans_view(*v);
    let mut total: usize = 0;
    let mut i: usize = 0;
    while i < v.len()
        invariant
            all == spans_view(*v),
            i <= all.len(),
            total == min_int(spans_cells(all.take(i as int)), usize::MAX as int),
        decreases all.len() - i,
    {
        assert(all.take(i + 1).drop_last() =~= all.take(i as int));
        total = add_saturating(total, v[i].total_cells_allocated());
        i = i + 1;
    }
    assert(all.take(i as int) =~= all);
    total
}

/// The first of `prior` equivalent to `current`, cloned and paired with a clone of it.
fn first_equivalent_exec(prior: &Vec<LoopSpan>, current: &LoopSpan) -> (r: Option<
    (LoopSpan, LoopSpan),
>)
    ensures
        match r {
            Some((p, c)) => first_equivalent(spans_view(*prior), current@) == Some(p@) && c@
                == current@,
            None => first_equivalent(spans_view(*prior), current@) is None,
        },
{
    let ghost all = spans_view(*prior);
    let mut i: usize = 0;
    assert(all.skip(0) =~= all);
    while i < prior.len()
        invariant
            all == spans_view(*prior),
            i <= prior@.len(),
            first_equivalent(all, current@) == first_equivalent(all.skip(i as int), current@),
        decreases prior@.len() - i,
    {
        let ghost rest = all.skip(i as int);
        assert(rest[0] == prior@[i as int]@);
        assert(rest.skip(1) =~= all.skip(i + 1));
        if prior[i].equivalent(current) {
            return Some((prior[i].clone(), current.clone()));
        }
        i = i + 1;
    }
    assert(all.skip(i as int).len() == 0);
    None
}

} // verus!
