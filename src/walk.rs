//! The pre-order traversal as a state machine on plain values: one `step`
//! pops one work-list entry.
use vstd::prelude::*;
use crate::cell::{referent, CellValue, HeapCellValue};
use crate::loc::{HeapOrStackTag, IterStackLoc, IterStackLocTag};

verus! {

/// A work-list entry as plain values.
pub struct Entry {
    pub tag: IterStackLocTag,
    pub origin: HeapOrStackTag,
    pub index: nat,
}

pub open spec fn entry_of(l: IterStackLoc) -> Entry {
    Entry { tag: l.tag(), origin: l.origin(), index: l.index() }
}

pub open spec fn entry(tag: IterStackLocTag, origin: HeapOrStackTag, index: nat) -> Entry {
    Entry { tag, origin, index }
}

/// The state of a traversal: both arrays, the work list (top last) and the
/// focus.
pub struct Walk {
    pub heap: Seq<HeapCellValue>,
    pub stack: Seq<HeapCellValue>,
    pub work: Seq<Entry>,
    pub focus: Entry,
}

impl Walk {
    pub open spec fn arr(self, o: HeapOrStackTag) -> Seq<HeapCellValue> {
        match o {
            HeapOrStackTag::Heap => self.heap,
            HeapOrStackTag::Stack => self.stack,
        }
    }

    pub open spec fn cell(self, o: HeapOrStackTag, i: nat) -> HeapCellValue {
        self.arr(o)[i as int]
    }

    pub open spec fn with_cell(self, o: HeapOrStackTag, i: nat, c: HeapCellValue) -> Walk {
        match o {
            HeapOrStackTag::Heap => Walk { heap: self.heap.update(i as int, c), ..self },
            HeapOrStackTag::Stack => Walk { stack: self.stack.update(i as int, c), ..self },
        }
    }

    pub open spec fn push(self, e: Entry) -> Walk {
        Walk { work: self.work.push(e), ..self }
    }

    /// The cell that `v` refers to is marked.
    pub open spec fn target_marked(self, v: CellValue) -> bool {
        match referent(v) {
            Some((on_stack, j)) => if on_stack {
                self.cell(HeapOrStackTag::Stack, j as nat).mark
            } else {
                self.cell(HeapOrStackTag::Heap, j as nat).mark
            },
            None => false,
        }
    }

    /// Marks an unmarked cell and pushes the entry that will clear the mark.
    pub open spec fn push_if_unmarked(self, o: HeapOrStackTag, i: nat) -> Walk {
        let c = self.cell(o, i);
        if !c.mark {
            self.with_cell(o, i, HeapCellValue { mark: true, ..c }).push(
                entry(IterStackLocTag::Iterable, o, i),
            )
        } else {
            self
        }
    }

    /// Sets the forwarding bit of a cell whose target is marked.
    pub open spec fn forward(self, o: HeapOrStackTag, i: nat) -> Walk {
        let c = self.cell(o, i);
        if self.target_marked(c.value) {
            self.with_cell(o, i, HeapCellValue { forwarding: true, ..c })
        } else {
            self
        }
    }

    /// Marks the cell at index `i` of `o`, pushes its visit and arms its
    /// forwarding bit.
    pub open spec fn enter(self, o: HeapOrStackTag, i: nat) -> Walk {
        self.push_if_unmarked(o, i).push(entry(IterStackLocTag::Marked, o, i)).forward(o, i)
    }

    /// Pushes pending entries for heap indices `k`, `k - 1`, ..., `lo + 2`.
    pub open spec fn push_pendings(self, lo: nat, k: nat) -> Walk
        decreases k,
    {
        if k <= lo + 1 {
            self
        } else {
            self.push(entry(IterStackLocTag::PendingMark, HeapOrStackTag::Heap, k)).push_pendings(
                lo,
                (k - 1) as nat,
            )
        }
    }
}

/// What popping one entry does.
pub enum Step {
    /// A cell is yielded.
    Yield(HeapCellValue, Walk),
    /// Nothing is yielded; the traversal goes on.
    Skip(Walk),
    /// The work list is empty.
    Done,
}

/// Pops the top entry of `w` and applies the traversal rules to it.
pub open spec fn step(w: Walk) -> Step {
    if w.work.len() == 0 {
        Step::Done
    } else {
        let e = w.work.last();
        let w1 = Walk { work: w.work.drop_last(), ..w };
        if e.tag == IterStackLocTag::PendingMark {
            Step::Skip(w1.enter(e.origin, e.index))
        } else {
            let w2 = Walk { focus: e, ..w1 };
            let c = w2.cell(e.origin, e.index);
            if c.forwarding {
                Step::Yield(c, w2.with_cell(e.origin, e.index, HeapCellValue { forwarding: false, ..c }))
            } else if c.mark && e.tag != IterStackLocTag::Marked {
                Step::Skip(w2.with_cell(e.origin, e.index, HeapCellValue { mark: false, ..c }))
            } else {
                visit(w2, e, c)
            }
        }
    }
}

/// Visiting the cell `c` at entry `e`, with the entry popped and the
/// focus on it: the rules for each kind of cell.
pub open spec fn visit(w2: Walk, e: Entry, c: HeapCellValue) -> Step {
    match c.value {
        CellValue::Str(vh) | CellValue::PStrLoc(vh) => Step::Skip(
            w2.push_if_unmarked(HeapOrStackTag::Heap, vh as nat).push(
                entry(IterStackLocTag::Marked, HeapOrStackTag::Heap, vh as nat),
            ),
        ),
        CellValue::Var(vh) | CellValue::AttrVar(vh) => Step::Skip(
            w2.enter(HeapOrStackTag::Heap, vh as nat),
        ),
        CellValue::StackVar(vs) => Step::Skip(w2.enter(HeapOrStackTag::Stack, vs as nat)),
        CellValue::Lis(vh) => {
            let w3 = w2.push_if_unmarked(HeapOrStackTag::Heap, vh as nat).push(
                entry(IterStackLocTag::PendingMark, HeapOrStackTag::Heap, (vh + 1) as nat),
            ).push(entry(IterStackLocTag::Marked, HeapOrStackTag::Heap, vh as nat)).forward(
                HeapOrStackTag::Heap,
                vh as nat,
            );
            Step::Yield(w3.cell(e.origin, e.index), w3)
        },
        CellValue::PStrOffset(off) => {
            let w3 = w2.push_if_unmarked(HeapOrStackTag::Heap, off as nat).push(
                entry(IterStackLocTag::Iterable, HeapOrStackTag::Heap, (e.index + 1) as nat),
            );
            Step::Yield(w3.cell(e.origin, e.index), w3)
        },
        CellValue::PStr(_) => {
            let w3 = w2.push_if_unmarked(HeapOrStackTag::Heap, e.index).push(
                entry(IterStackLocTag::Iterable, HeapOrStackTag::Heap, (e.index + 1) as nat),
            ).forward(HeapOrStackTag::Heap, (e.index + 1) as nat);
            Step::Yield(w3.cell(e.origin, e.index), w3)
        },
        CellValue::Atom(_, n) => {
            let w3 = w2.push_pendings(e.index, (e.index + n) as nat);
            let w4 = if n > 0 {
                w3.enter(HeapOrStackTag::Heap, (e.index + 1) as nat)
            } else {
                w3
            };
            Step::Yield(w4.cell(e.origin, e.index), w4)
        },
        _ => Step::Yield(c, w2),
    }
}

/// Steps from `w` until a cell is yielded or the work list is empty, in at
/// most `fuel` skipped steps: what is yielded and the state after it.
pub open spec fn run(w: Walk, fuel: nat) -> Option<(Option<HeapCellValue>, Walk)>
    decreases fuel,
{
    match step(w) {
        Step::Done => Some((None, w)),
        Step::Yield(c, v) => Some((Some(c), v)),
        Step::Skip(v) => if fuel == 0 {
            None
        } else {
            run(v, (fuel - 1) as nat)
        },
    }
}


/// A skipped step moves the start of a run one step on.
pub proof fn lemma_run_skip(w0: Walk, w: Walk, start: Walk, fuel: nat)
    requires
        step(w0) == Step::Skip(w),
        forall|m: nat| #[trigger] run(w0, m) == run(start, fuel + m),
    ensures
        forall|m: nat| #[trigger] run(w, m) == run(start, (fuel + 1) + m),
{
    assert forall|m: nat| #[trigger] run(w, m) == run(start, (fuel + 1) + m) by {
        assert(run(w0, m + 1) == run(w, m));
        assert(run(w0, m + 1) == run(start, fuel + (m + 1)));
    }
}

/// A step that yields or finds the work list empty ends a run.
pub proof fn lemma_run_stops(w0: Walk, r: Option<HeapCellValue>, w: Walk, start: Walk, fuel: nat)
    requires
        match step(w0) {
            Step::Yield(c, v) => r == Some(c) && w == v,
            Step::Done => r is None && w == w0,
            Step::Skip(_) => false,
        },
        forall|m: nat| #[trigger] run(w0, m) == run(start, fuel + m),
    ensures
        exists|f: nat| run(start, f) == Some((r, w)),
{
    assert(run(w0, 0) == run(start, fuel + 0));
    assert(run(start, fuel) == Some((r, w)));
}


/// Force-popping the top entry of `w`: a cycle sentinel has its forwarding
/// bit cleared and is returned; a marked cell under an entry that is not a
/// `Marked` visit has its mark cleared and is passed over; any other cell
/// is returned as it stands.
pub open spec fn force_pop_step(w: Walk) -> Step {
    if w.work.len() == 0 {
        Step::Done
    } else {
        let e = w.work.last();
        let w2 = Walk { work: w.work.drop_last(), focus: e, ..w };
        let c = w2.cell(e.origin, e.index);
        if c.forwarding {
            let c1 = HeapCellValue { forwarding: false, ..c };
            Step::Yield(c1, w2.with_cell(e.origin, e.index, c1))
        } else if c.mark && e.tag != IterStackLocTag::Marked {
            Step::Skip(w2.with_cell(e.origin, e.index, HeapCellValue { mark: false, ..c }))
        } else {
            Step::Yield(c, w2)
        }
    }
}

/// Force-pops from `w` until an entry is not passed over or the work list
/// is empty, in at most `fuel` entries passed over.
pub open spec fn run_force_pop(w: Walk, fuel: nat) -> Option<(Option<HeapCellValue>, Walk)>
    decreases fuel,
{
    match force_pop_step(w) {
        Step::Done => Some((None, w)),
        Step::Yield(c, v) => Some((Some(c), v)),
        Step::Skip(v) => if fuel == 0 {
            None
        } else {
            run_force_pop(v, (fuel - 1) as nat)
        },
    }
}

pub proof fn lemma_force_pop_skip(w0: Walk, w: Walk, start: Walk, fuel: nat)
    requires
        force_pop_step(w0) == Step::Skip(w),
        forall|m: nat| #[trigger] run_force_pop(w0, m) == run_force_pop(start, fuel + m),
    ensures
        forall|m: nat| #[trigger] run_force_pop(w, m) == run_force_pop(start, (fuel + 1) + m),
{
    assert forall|m: nat| #[trigger] run_force_pop(w, m) == run_force_pop(start, (fuel + 1) + m) by {
        assert(run_force_pop(w0, m + 1) == run_force_pop(w, m));
        assert(run_force_pop(w0, m + 1) == run_force_pop(start, fuel + (m + 1)));
    }
}

pub proof fn lemma_force_pop_stops(w0: Walk, r: Option<HeapCellValue>, w: Walk, start: Walk, fuel: nat)
    requires
        match force_pop_step(w0) {
            Step::Yield(c, v) => r == Some(c) && w == v,
            Step::Done => r is None && w == w0,
            Step::Skip(_) => false,
        },
        forall|m: nat| #[trigger] run_force_pop(w0, m) == run_force_pop(start, fuel + m),
    ensures
        exists|f: nat| run_force_pop(start, f) == Some((r, w)),
{
    assert(run_force_pop(w0, 0) == run_force_pop(start, fuel + 0));
    assert(run_force_pop(start, fuel) == Some((r, w)));
}


/// The traversal is deterministic: two runs from the same state that both
/// reach a yield (or the end) reach the same one, in the same state, so
/// equal heaps and roots give equal streams.
pub proof fn lemma_run_deterministic(w: Walk, f1: nat, f2: nat)
    requires
        run(w, f1) is Some,
        run(w, f2) is Some,
    ensures
        run(w, f1) == run(w, f2),
    decreases f1,
{
    match step(w) {
        Step::Skip(v) => {
            if f1 > 0 && f2 > 0 {
                lemma_run_deterministic(v, (f1 - 1) as nat, (f2 - 1) as nat);
            }
        },
        _ => {},
    }
}


/// The state after one force-pop of `w`: enough fuel for every entry of
/// the work list to be passed over.
pub open spec fn force_pop_once(w: Walk) -> Walk {
    match run_force_pop(w, w.work.len()) {
        Some((_, v)) => v,
        None => w,
    }
}

/// The state after `n` successive force-pops of `w`.
pub open spec fn force_pops(w: Walk, n: nat) -> Walk
    decreases n,
{
    if n == 0 {
        w
    } else {
        force_pop_once(force_pops(w, (n - 1) as nat))
    }
}

/// A force-pop passes over at most every entry of the work list.
pub proof fn lemma_force_pop_enough(w: Walk, fuel: nat)
    requires
        fuel >= w.work.len(),
    ensures
        run_force_pop(w, fuel) is Some,
    decreases fuel,
{
    match force_pop_step(w) {
        Step::Skip(v) => {
            assert(v.work.len() == w.work.len() - 1);
            lemma_force_pop_enough(v, (fuel - 1) as nat);
        },
        _ => {},
    }
}

pub proof fn lemma_force_pop_deterministic(w: Walk, f1: nat, f2: nat)
    requires
        run_force_pop(w, f1) is Some,
        run_force_pop(w, f2) is Some,
    ensures
        run_force_pop(w, f1) == run_force_pop(w, f2),
    decreases f1,
{
    match force_pop_step(w) {
        Step::Skip(v) => {
            if f1 > 0 && f2 > 0 {
                lemma_force_pop_deterministic(v, (f1 - 1) as nat, (f2 - 1) as nat);
            }
        },
        _ => {},
    }
}

/// Whatever fuel a force-pop took, it left the state `force_pop_once` names.
pub proof fn lemma_force_pop_once(w: Walk, fuel: nat, r: Option<HeapCellValue>, v: Walk)
    requires
        run_force_pop(w, fuel) == Some((r, v)),
    ensures
        force_pop_once(w) == v,
{
    lemma_force_pop_enough(w, w.work.len());
    lemma_force_pop_deterministic(w, fuel, w.work.len());
}

} // verus!
