//! The stackful pre-order iterator over a term graph.
//!
//! A visit to a cell marks the cell it refers to and pushes an `Iterable`
//! entry that clears the mark when popped; a `Marked` entry pushed above it
//! performs the visit. A reference whose target is marked when it is about
//! to be visited gets its forwarding bit set, and is yielded as a cycle
//! sentinel instead of being followed.
use vstd::prelude::*;
use crate::cell::{clean, is_chained, referent, CellValue, HeapCellValue};
use crate::heap::{
    all_clean, cell_wf, heap_wf, lemma_marked_count_bound, lemma_marked_count_update, marked_count,
};
use crate::loc::{HeapOrStackTag, IterStackLoc, IterStackLocTag, LOC_INDEX_BOUND};
use crate::walk::{
    entry, entry_of, force_pop_step, lemma_force_pop_skip, lemma_force_pop_stops, lemma_run_skip,
    lemma_run_stops, run, run_force_pop, step, visit, Step, Walk,
};

verus! {

/// An iterator that yields cells and tells where the last one came from.
pub trait FocusedHeapIter: Sized {
    /// The iterator's internal invariant.
    spec fn inv(&self) -> bool;

    /// The location of the cell yielded last.
    spec fn current_focus(&self) -> IterStackLoc;

    /// The heap and machine stack as they stood when the traversal began.
    spec fn start_state(&self) -> (Seq<HeapCellValue>, Seq<HeapCellValue>);

    /// Nothing is left to yield.
    spec fn exhausted(&self) -> bool;

    /// A call of `next` on `before` may return `r` and leave `after`.
    spec fn next_rel(before: Self, r: Option<HeapCellValue>, after: Self) -> bool;

    fn next(&mut self) -> (r: Option<HeapCellValue>)
        requires
            old(self).inv(),
        ensures
            final(self).inv(),
            final(self).start_state() == old(self).start_state(),
            Self::next_rel(*old(self), r, *final(self)),
            r is None ==> final(self).exhausted(),
    ;

    fn focus(&self) -> (r: IterStackLoc)
        ensures
            r == self.current_focus(),
    ;
}

/// `a` names index `i` of the array `o`.
pub open spec fn same_loc(a: IterStackLoc, o: HeapOrStackTag, i: nat) -> bool {
    a.origin() == o && a.index() == i
}

/// `a` is an `Iterable` entry for index `i` of `o`: popping it clears a mark there.
pub open spec fn clears(a: IterStackLoc, o: HeapOrStackTag, i: nat) -> bool {
    a.tag() == IterStackLocTag::Iterable && same_loc(a, o, i)
}

/// Some entry below position `upto` of `w` clears the mark at index `i` of `o`.
pub open spec fn has_clearer(w: Seq<IterStackLoc>, o: HeapOrStackTag, i: nat, upto: int) -> bool {
    exists|p: int| 0 <= p < upto && #[trigger] clears(w[p], o, i)
}

pub open spec fn origin_of(on_stack: bool) -> HeapOrStackTag {
    if on_stack {
        HeapOrStackTag::Stack
    } else {
        HeapOrStackTag::Heap
    }
}

proof fn lemma_clearer_below_top(w: Seq<IterStackLoc>, o: HeapOrStackTag, i: nat)
    requires
        w.len() > 0,
        has_clearer(w, o, i, w.len() as int),
        !clears(w.last(), o, i),
    ensures
        has_clearer(w, o, i, w.len() - 1),
{
    let p = choose|p: int| 0 <= p < w.len() && #[trigger] clears(w[p], o, i);
    assert(p < w.len() - 1);
}

proof fn lemma_clearer_prefix(w: Seq<IterStackLoc>, v: Seq<IterStackLoc>, o: HeapOrStackTag, i: nat, n: int)
    requires
        has_clearer(w, o, i, n),
        n <= w.len(),
        w.len() <= v.len(),
        w == v.subrange(0, w.len() as int),
    ensures
        has_clearer(v, o, i, n),
{
    let p = choose|p: int| 0 <= p < n && #[trigger] clears(w[p], o, i);
    assert(v[p] == w[p]);
}

/// The pre-order iterator. It owns the heap and the machine stack while it
/// runs: `finish` clears every bit it set, removes the root it appended and
/// hands both back.
pub struct StackfulPreOrderHeapIter {
    heap: Vec<HeapCellValue>,
    machine_stack: Vec<HeapCellValue>,
    stack: Vec<IterStackLoc>,
    h: IterStackLoc,
    start_heap: Ghost<Seq<HeapCellValue>>,
    start_stack: Ghost<Seq<HeapCellValue>>,
}

impl StackfulPreOrderHeapIter {
    /// The heap as it stands, the appended root included.
    pub closed spec fn heap_seq(self) -> Seq<HeapCellValue> {
        self.heap@
    }

    pub closed spec fn stack_seq(self) -> Seq<HeapCellValue> {
        self.machine_stack@
    }

    /// The work list, its top last.
    pub closed spec fn work_list(self) -> Seq<IterStackLoc> {
        self.stack@
    }

    pub closed spec fn focus_loc(self) -> IterStackLoc {
        self.h
    }

    /// The heap at construction, the appended root included.
    pub closed spec fn start_heap(self) -> Seq<HeapCellValue> {
        self.start_heap@
    }

    pub closed spec fn start_stack(self) -> Seq<HeapCellValue> {
        self.start_stack@
    }

    pub open spec fn arr(self, o: HeapOrStackTag) -> Seq<HeapCellValue> {
        match o {
            HeapOrStackTag::Heap => self.heap_seq(),
            HeapOrStackTag::Stack => self.stack_seq(),
        }
    }

    pub open spec fn cell_of(self, o: HeapOrStackTag, i: nat) -> HeapCellValue {
        self.arr(o)[i as int]
    }

    pub open spec fn loc_ok(self, l: IterStackLoc) -> bool {
        l.index() < self.arr(l.origin()).len()
    }

    pub open spec fn at(self, l: IterStackLoc) -> HeapCellValue {
        self.cell_of(l.origin(), l.index())
    }

    /// The cell that `v` refers to is marked.
    pub open spec fn target_marked(self, v: CellValue) -> bool {
        match referent(v) {
            Some((s, j)) => self.cell_of(origin_of(s), j as nat).mark,
            None => false,
        }
    }

    /// No cell carries a forwarding bit.
    pub open spec fn no_forwarding(self) -> bool {
        forall|o: HeapOrStackTag, i: nat|
            i < self.arr(o).len() ==> !(#[trigger] self.cell_of(o, i)).forwarding
    }

    /// Every forwarding bit stands on the cell of the top entry.
    pub open spec fn forwarding_only_at(self, l: IterStackLoc) -> bool {
        forall|o: HeapOrStackTag, i: nat|
            i < self.arr(o).len() && (#[trigger] self.cell_of(o, i)).forwarding ==> same_loc(l, o, i)
    }

    pub closed spec fn wf(self) -> bool {
        let w = self.stack@;
        &&& self.start_heap@.len() > 0
        &&& self.start_heap@.len() < LOC_INDEX_BOUND
        &&& self.start_stack@.len() < LOC_INDEX_BOUND
        &&& all_clean(self.start_heap@)
        &&& all_clean(self.start_stack@)
        &&& heap_wf(self.start_heap@, self.start_stack@)
        &&& self.heap@.len() == self.start_heap@.len()
        &&& self.machine_stack@.len() == self.start_stack@.len()
        &&& self.heap@.len() <= usize::MAX
        &&& self.machine_stack@.len() <= usize::MAX
        &&& forall|i: int| 0 <= i < self.heap@.len() ==> clean(#[trigger] self.heap@[i]) == self.start_heap@[i]
        &&& forall|i: int| 0 <= i < self.machine_stack@.len()
            ==> clean(#[trigger] self.machine_stack@[i]) == self.start_stack@[i]
        &&& forall|p: int| 0 <= p < w.len() ==> self.loc_ok(#[trigger] w[p])
        &&& forall|o: HeapOrStackTag, i: nat|
            i < self.arr(o).len() && (#[trigger] self.cell_of(o, i)).forwarding ==> {
                &&& w.len() > 0
                &&& same_loc(w.last(), o, i)
                &&& w.last().tag() != IterStackLocTag::PendingMark
                &&& self.target_marked(self.cell_of(o, i).value)
            }
        &&& forall|o: HeapOrStackTag, i: nat|
            i < self.arr(o).len() && (#[trigger] self.cell_of(o, i)).mark ==> {
                ||| has_clearer(w, o, i, w.len() - 1)
                ||| (has_clearer(w, o, i, w.len() as int) && !self.cell_of(o, i).forwarding)
            }
    }

    /// The top entry is a `Marked` visit whose cell, if a variable, either
    /// carries a forwarding bit or refers to an unmarked cell.
    spec fn chain_ready(self) -> bool {
        let w = self.stack@;
        &&& w.len() > 0
        &&& w.last().tag() == IterStackLocTag::Marked
        &&& self.loc_ok(w.last())
        &&& (self.at(w.last()).forwarding || match self.at(w.last()).value {
            CellValue::Var(_) | CellValue::AttrVar(_) | CellValue::StackVar(_) => !self.target_marked(
                self.at(w.last()).value,
            ),
            _ => true,
        })
    }

    spec fn unmarked(self) -> nat {
        ((self.heap@.len() - marked_count(self.heap@)) + (self.machine_stack@.len() - marked_count(
            self.machine_stack@,
        ))) as nat
    }

    spec fn top_weight(self) -> nat {
        if self.stack@.len() > 0 && is_chained(self.at(self.stack@.last()).value) {
            1
        } else {
            0
        }
    }

    spec fn measure(self, phase: int) -> nat {
        if phase == 1 {
            self.stack@.len()
        } else {
            2 * self.unmarked() + self.top_weight()
        }
    }

    /// The record of the starting state is the same in `self` and `o`.
    pub open spec fn same_start(self, o: Self) -> bool {
        self.start_heap() == o.start_heap() && self.start_stack() == o.start_stack()
    }

    /// The cells of `self` are those of `o` with the cell at `l` replaced by `c`.
    pub closed spec fn cells_replaced(self, o: Self, l: IterStackLoc, c: HeapCellValue) -> bool {
        &&& self.heap@ == (if l.origin() == HeapOrStackTag::Heap {
            o.heap@.update(l.index() as int, c)
        } else {
            o.heap@
        })
        &&& self.machine_stack@ == (if l.origin() == HeapOrStackTag::Stack {
            o.machine_stack@.update(l.index() as int, c)
        } else {
            o.machine_stack@
        })
        &&& self.start_heap@ == o.start_heap@
        &&& self.start_stack@ == o.start_stack@
    }

    /// `self` is `o` with the cell at `l` replaced by `c`.
    spec fn cell_replaced(self, o: Self, l: IterStackLoc, c: HeapCellValue) -> bool {
        &&& self.cells_replaced(o, l, c)
        &&& self.stack@ == o.stack@
        &&& self.h == o.h
    }

    /// The traversal state as plain values.
    pub closed spec fn walk(self) -> Walk {
        Walk {
            heap: self.heap@,
            stack: self.machine_stack@,
            work: self.stack@.map_values(|l: IterStackLoc| entry_of(l)),
            focus: entry_of(self.h),
        }
    }

    proof fn lemma_walk_replaced(s: Self, t: Self, l: IterStackLoc, c: HeapCellValue)
        requires
            t.cells_replaced(s, l, c),
            t.stack@ == s.stack@,
            t.h == s.h,
        ensures
            t.walk() == s.walk().with_cell(l.origin(), l.index(), c),
    {
    }

    proof fn lemma_walk_push(s: Self, t: Self, e: IterStackLoc)
        requires
            t.stack@ == s.stack@.push(e),
            t.heap@ == s.heap@,
            t.machine_stack@ == s.machine_stack@,
            t.h == s.h,
        ensures
            t.walk() == s.walk().push(entry_of(e)),
    {
        assert(t.stack@.map_values(|l: IterStackLoc| entry_of(l)) =~= s.stack@.map_values(
            |l: IterStackLoc| entry_of(l),
        ).push(entry_of(e)));
    }

    /// `self` is `o` with its top entry popped.
    spec fn popped(self, o: Self) -> bool {
        &&& o.stack@.len() > 0
        &&& self.stack@ == o.stack@.drop_last()
        &&& self.heap@ == o.heap@
        &&& self.machine_stack@ == o.machine_stack@
        &&& self.start_heap@ == o.start_heap@
        &&& self.start_stack@ == o.start_stack@
    }

    proof fn lemma_marks_bounded(self)
        ensures
            marked_count(self.heap@) <= self.heap@.len(),
            marked_count(self.machine_stack@) <= self.machine_stack@.len(),
    {
        lemma_marked_count_bound(self.heap@);
        lemma_marked_count_bound(self.machine_stack@);
    }

    /// The cell at `l`, which is well formed and keeps its starting value.
    proof fn lemma_cell_facts(self, l: IterStackLoc)
        requires
            self.wf(),
            self.loc_ok(l),
        ensures
            self.at(l).value == (if l.origin() == HeapOrStackTag::Heap {
                self.start_heap@[l.index() as int]
            } else {
                self.start_stack@[l.index() as int]
            }).value,
            cell_wf(self.at(l).value, l.index(), self.start_heap@, self.start_stack@.len()),
    {
        let i = l.index() as int;
        if l.origin() == HeapOrStackTag::Heap {
            assert(clean(self.heap@[i]) == self.start_heap@[i]);
            assert(cell_wf(self.start_heap@[i].value, i as nat, self.start_heap@, self.start_stack@.len()));
        } else {
            assert(clean(self.machine_stack@[i]) == self.start_stack@[i]);
            assert(cell_wf(self.start_stack@[i].value, i as nat, self.start_heap@, self.start_stack@.len()));
        }
    }

    /// The index of `loc`, which fits its array.
    fn index_of(&self, loc: IterStackLoc) -> (r: usize)
        requires
            self.loc_ok(loc),
        ensures
            r == loc.index(),
    {
        let v: u64 = loc.value();
        let n: usize = match loc.heap_or_stack() {
            HeapOrStackTag::Heap => self.heap.len(),
            HeapOrStackTag::Stack => self.machine_stack.len(),
        };
        assert(v < n);
        v as usize
    }

    fn read_loc(&self, loc: IterStackLoc) -> (r: HeapCellValue)
        requires
            self.loc_ok(loc),
        ensures
            r == self.at(loc),
    {
        let i: usize = self.index_of(loc);
        match loc.heap_or_stack() {
            HeapOrStackTag::Heap => self.heap[i],
            HeapOrStackTag::Stack => self.machine_stack[i],
        }
    }

    fn write_loc(&mut self, loc: IterStackLoc, c: HeapCellValue)
        requires
            old(self).loc_ok(loc),
        ensures
            final(self).cell_replaced(*old(self), loc, c),
    {
        let i: usize = self.index_of(loc);
        match loc.heap_or_stack() {
            HeapOrStackTag::Heap => {
                self.heap.set(i, c);
            },
            HeapOrStackTag::Stack => {
                self.machine_stack.set(i, c);
            },
        }
    }
}


impl StackfulPreOrderHeapIter {
    /// Popping a top entry that is neither a cycle sentinel nor a mark to clear.
    proof fn lemma_pop_plain(s: Self, t: Self)
        requires
            s.wf(),
            t.popped(s),
            !s.at(s.stack@.last()).forwarding,
            !(s.stack@.last().tag() == IterStackLocTag::Iterable && s.at(s.stack@.last()).mark),
        ensures
            t.wf(),
            t.no_forwarding(),
    {
        let w = s.stack@;
        let e = w.last();
        assert(s.loc_ok(w[w.len() - 1]));
        assert forall|o: HeapOrStackTag, i: nat| i < t.arr(o).len() implies !(#[trigger] t.cell_of(o, i)).forwarding by {
            assert(s.cell_of(o, i) == t.cell_of(o, i));
        }
        assert forall|o: HeapOrStackTag, i: nat|
            i < t.arr(o).len() && (#[trigger] t.cell_of(o, i)).mark implies has_clearer(t.stack@, o, i, t.stack@.len() as int) by {
            assert(s.cell_of(o, i) == t.cell_of(o, i));
            if !has_clearer(w, o, i, w.len() - 1) {
                lemma_clearer_below_top(w, o, i);
            }
            let p = choose|p: int| 0 <= p < w.len() - 1 && #[trigger] clears(w[p], o, i);
            assert(t.stack@[p] == w[p]);
        }
        assert forall|p: int| 0 <= p < t.stack@.len() implies t.loc_ok(#[trigger] t.stack@[p]) by {
            assert(t.stack@[p] == w[p]);
            assert(s.loc_ok(w[p]));
        }
    }

    /// Popping an entry whose cell is marked, and clearing the mark.
    proof fn lemma_pop_clear(s: Self, m: Self, t: Self)
        requires
            s.wf(),
            m.popped(s),
            s.at(s.stack@.last()).mark,
            !s.at(s.stack@.last()).forwarding,
            t.cell_replaced(m, s.stack@.last(), HeapCellValue { mark: false, ..s.at(s.stack@.last()) }),
        ensures
            t.wf(),
            t.no_forwarding(),
    {
        let w = s.stack@;
        let e = w.last();
        assert(s.loc_ok(w[w.len() - 1]));
        assert forall|o: HeapOrStackTag, i: nat| i < t.arr(o).len() implies !(#[trigger] t.cell_of(o, i)).forwarding by {
            if !same_loc(e, o, i) {
                assert(s.cell_of(o, i) == t.cell_of(o, i));
            }
        }
        assert forall|o: HeapOrStackTag, i: nat|
            i < t.arr(o).len() && (#[trigger] t.cell_of(o, i)).mark implies has_clearer(t.stack@, o, i, t.stack@.len() as int) by {
            assert(!same_loc(e, o, i));
            assert(s.cell_of(o, i) == t.cell_of(o, i));
            if !has_clearer(w, o, i, w.len() - 1) {
                lemma_clearer_below_top(w, o, i);
            }
            let p = choose|p: int| 0 <= p < w.len() - 1 && #[trigger] clears(w[p], o, i);
            assert(t.stack@[p] == w[p]);
        }
        assert forall|p: int| 0 <= p < t.stack@.len() implies t.loc_ok(#[trigger] t.stack@[p]) by {
            assert(t.stack@[p] == w[p]);
            assert(s.loc_ok(w[p]));
        }
        assert forall|i: int| 0 <= i < t.heap@.len() implies clean(#[trigger] t.heap@[i]) == t.start_heap@[i] by {
            assert(clean(s.heap@[i]) == s.start_heap@[i]);
        }
        assert forall|i: int| 0 <= i < t.machine_stack@.len() implies clean(#[trigger] t.machine_stack@[i]) == t.start_stack@[i] by {
            assert(clean(s.machine_stack@[i]) == s.start_stack@[i]);
        }
    }

    /// Popping a cycle sentinel and clearing its forwarding bit.
    proof fn lemma_pop_forwarded(s: Self, m: Self, t: Self)
        requires
            s.wf(),
            m.popped(s),
            s.at(s.stack@.last()).forwarding,
            t.cells_replaced(m, s.stack@.last(), HeapCellValue { forwarding: false, ..s.at(s.stack@.last()) }),
            t.stack@ == m.stack@,
        ensures
            t.wf(),
            t.no_forwarding(),
    {
        let w = s.stack@;
        let e = w.last();
        assert(s.loc_ok(w[w.len() - 1]));
        assert forall|o: HeapOrStackTag, i: nat| i < t.arr(o).len() implies !(#[trigger] t.cell_of(o, i)).forwarding by {
            if !same_loc(e, o, i) {
                assert(s.cell_of(o, i) == t.cell_of(o, i));
            }
        }
        assert forall|o: HeapOrStackTag, i: nat|
            i < t.arr(o).len() && (#[trigger] t.cell_of(o, i)).mark implies has_clearer(t.stack@, o, i, t.stack@.len() as int) by {
            assert(s.cell_of(o, i).mark);
            if !has_clearer(w, o, i, w.len() - 1) {
                assert(!s.cell_of(o, i).forwarding);
                assert(!same_loc(e, o, i));
                lemma_clearer_below_top(w, o, i);
            }
            let p = choose|p: int| 0 <= p < w.len() - 1 && #[trigger] clears(w[p], o, i);
            assert(t.stack@[p] == w[p]);
        }
        assert forall|p: int| 0 <= p < t.stack@.len() implies t.loc_ok(#[trigger] t.stack@[p]) by {
            assert(t.stack@[p] == w[p]);
            assert(s.loc_ok(w[p]));
        }
        assert forall|i: int| 0 <= i < t.heap@.len() implies clean(#[trigger] t.heap@[i]) == t.start_heap@[i] by {
            assert(clean(s.heap@[i]) == s.start_heap@[i]);
        }
        assert forall|i: int| 0 <= i < t.machine_stack@.len() implies clean(#[trigger] t.machine_stack@[i]) == t.start_stack@[i] by {
            assert(clean(s.machine_stack@[i]) == s.start_stack@[i]);
        }
    }
}


impl StackfulPreOrderHeapIter {
    fn set_mark_at(&mut self, loc: IterStackLoc, b: bool)
        requires
            old(self).loc_ok(loc),
        ensures
            final(self).cell_replaced(*old(self), loc, HeapCellValue { mark: b, ..old(self).at(loc) }),
    {
        let mut c = self.read_loc(loc);
        c.set_mark_bit(b);
        self.write_loc(loc, c);
    }

    fn set_forwarding_at(&mut self, loc: IterStackLoc, b: bool)
        requires
            old(self).loc_ok(loc),
        ensures
            final(self).cell_replaced(
                *old(self),
                loc,
                HeapCellValue { forwarding: b, ..old(self).at(loc) },
            ),
    {
        let mut c = self.read_loc(loc);
        c.set_forwarding_bit(b);
        self.write_loc(loc, c);
    }

    fn push_entry(&mut self, e: IterStackLoc)
        requires
            old(self).wf(),
            old(self).no_forwarding(),
            old(self).loc_ok(e),
        ensures
            final(self).wf(),
            final(self).no_forwarding(),
            final(self).stack@ == old(self).stack@.push(e),
            final(self).heap@ == old(self).heap@,
            final(self).machine_stack@ == old(self).machine_stack@,
            final(self).h == old(self).h,
            final(self).same_start(*old(self)),
            final(self).walk() == old(self).walk().push(entry_of(e)),
    {
        self.stack.push(e);
        proof {
            Self::lemma_walk_push(*old(self), *self, e);
            let w0 = old(self).stack@;
            let w = self.stack@;
            assert(w0 == w.subrange(0, w0.len() as int));
            assert forall|o: HeapOrStackTag, i: nat| i < self.arr(o).len() implies !(#[trigger] self.cell_of(o, i)).forwarding by {
                assert(old(self).cell_of(o, i) == self.cell_of(o, i));
            }
            assert forall|o: HeapOrStackTag, i: nat|
                i < self.arr(o).len() && (#[trigger] self.cell_of(o, i)).mark implies has_clearer(w, o, i, w.len() - 1) by {
                assert(old(self).cell_of(o, i) == self.cell_of(o, i));
                lemma_clearer_prefix(w0, w, o, i, w0.len() as int);
            }
            assert forall|p: int| 0 <= p < w.len() implies self.loc_ok(#[trigger] w[p]) by {
                if p < w0.len() {
                    assert(w[p] == w0[p]);
                }
            }
        }
    }

    /// Marks the cell at `loc` and pushes an entry that will clear the mark,
    /// unless the cell is marked already.
    fn push_if_unmarked(&mut self, loc: IterStackLoc)
        requires
            old(self).wf(),
            old(self).no_forwarding(),
            old(self).loc_ok(loc),
        ensures
            final(self).wf(),
            final(self).no_forwarding(),
            final(self).h == old(self).h,
            final(self).same_start(*old(self)),
            old(self).at(loc).mark ==> {
                &&& final(self).heap@ == old(self).heap@
                &&& final(self).machine_stack@ == old(self).machine_stack@
                &&& final(self).stack@ == old(self).stack@
            },
            !old(self).at(loc).mark ==> {
                &&& final(self).cells_replaced(*old(self), loc, HeapCellValue { mark: true, ..old(self).at(loc) })
                &&& final(self).stack@.len() == old(self).stack@.len() + 1
                &&& final(self).stack@.subrange(0, old(self).stack@.len() as int) == old(self).stack@
                &&& clears(final(self).stack@.last(), loc.origin(), loc.index())
                &&& final(self).unmarked() + 1 == old(self).unmarked()
            },
            final(self).walk() == old(self).walk().push_if_unmarked(loc.origin(), loc.index()),
    {
        let mut cell = self.read_loc(loc);
        if !cell.get_mark_bit() {
            cell.set_mark_bit(true);
            self.write_loc(loc, cell);
            let ghost mid = *self;
            let e = IterStackLoc::iterable_loc(self.index_of(loc), loc.heap_or_stack());
            self.stack.push(e);
            proof {
                Self::lemma_walk_replaced(*old(self), mid, loc, cell);
                Self::lemma_walk_push(mid, *self, e);
                assert(entry_of(e) == entry(IterStackLocTag::Iterable, loc.origin(), loc.index()));
                let s = *old(self);
                let w0 = s.stack@;
                let w = self.stack@;
                let o0 = loc.origin();
                let i0 = loc.index();
                assert(w0 == w.subrange(0, w0.len() as int));
                assert(clears(w[w0.len() as int], o0, i0));
                assert forall|o: HeapOrStackTag, i: nat| i < self.arr(o).len() implies !(#[trigger] self.cell_of(o, i)).forwarding by {
                    if !same_loc(loc, o, i) {
                        assert(s.cell_of(o, i) == self.cell_of(o, i));
                    }
                }
                assert forall|o: HeapOrStackTag, i: nat|
                    i < self.arr(o).len() && (#[trigger] self.cell_of(o, i)).mark implies has_clearer(w, o, i, w.len() as int) by {
                    if same_loc(loc, o, i) {
                        assert(clears(w[w0.len() as int], o, i));
                    } else {
                        assert(s.cell_of(o, i) == self.cell_of(o, i));
                        lemma_clearer_prefix(w0, w, o, i, w0.len() as int);
                    }
                }
                assert forall|p: int| 0 <= p < w.len() implies self.loc_ok(#[trigger] w[p]) by {
                    if p < w0.len() {
                        assert(w[p] == w0[p]);
                        assert(s.loc_ok(w0[p]));
                    }
                }
                assert forall|i: int| 0 <= i < self.heap@.len() implies clean(#[trigger] self.heap@[i]) == self.start_heap@[i] by {
                    assert(clean(s.heap@[i]) == s.start_heap@[i]);
                }
                assert forall|i: int| 0 <= i < self.machine_stack@.len() implies clean(#[trigger] self.machine_stack@[i]) == self.start_stack@[i] by {
                    assert(clean(s.machine_stack@[i]) == s.start_stack@[i]);
                }
                let c1 = HeapCellValue { mark: true, ..s.at(loc) };
                if o0 == HeapOrStackTag::Heap {
                    lemma_marked_count_update(s.heap@, i0 as int, c1);
                } else {
                    lemma_marked_count_update(s.machine_stack@, i0 as int, c1);
                }
                s.lemma_marks_bounded();
                self.lemma_marks_bounded();
            }
        }
    }

    /// Sets the forwarding bit of the cell at `loc` when the cell it refers
    /// to is marked: the cell then closes a cycle.
    fn forward_if_referent_marked(&mut self, loc: IterStackLoc)
        requires
            old(self).wf(),
            old(self).no_forwarding(),
            old(self).loc_ok(loc),
            old(self).stack@.len() > 0,
            same_loc(old(self).stack@.last(), loc.origin(), loc.index()),
            old(self).stack@.last().tag() != IterStackLocTag::PendingMark,
            old(self).at(loc).mark ==> has_clearer(
                old(self).stack@,
                loc.origin(),
                loc.index(),
                old(self).stack@.len() - 1,
            ),
        ensures
            final(self).wf(),
            final(self).cell_replaced(
                *old(self),
                loc,
                HeapCellValue {
                    forwarding: old(self).target_marked(old(self).at(loc).value),
                    ..old(self).at(loc)
                },
            ),
            final(self).unmarked() == old(self).unmarked(),
            final(self).target_marked(old(self).at(loc).value) == old(self).target_marked(
                old(self).at(loc).value,
            ),
            final(self).walk() == old(self).walk().forward(loc.origin(), loc.index()),
    {
        let cell = self.read_loc(loc);
        proof {
            self.lemma_cell_facts(loc);
        }
        match cell.value {
            CellValue::Str(vh) | CellValue::Lis(vh) | CellValue::AttrVar(vh) | CellValue::Var(vh)
            | CellValue::PStrLoc(vh) => {
                if self.heap[vh].get_mark_bit() {
                    self.set_forwarding_at(loc, true);
                }
            },
            CellValue::StackVar(vs) => {
                if self.machine_stack[vs].get_mark_bit() {
                    self.set_forwarding_at(loc, true);
                }
            },
            _ => {},
        }
        proof {
            let s = *old(self);
            let c1 = HeapCellValue { forwarding: s.target_marked(s.at(loc).value), ..s.at(loc) };
            let i0 = loc.index() as int;
            if !s.target_marked(s.at(loc).value) {
                assert(c1 == s.at(loc));
                if loc.origin() == HeapOrStackTag::Heap {
                    assert(s.heap@.update(i0, c1) =~= s.heap@);
                } else {
                    assert(s.machine_stack@.update(i0, c1) =~= s.machine_stack@);
                }
            }
            let w = self.stack@;
            assert forall|o: HeapOrStackTag, i: nat| #![auto] i < self.arr(o).len() && !same_loc(loc, o, i) implies self.cell_of(o, i) == s.cell_of(o, i) by {}
            assert(self.target_marked(c1.value) == s.target_marked(c1.value));
            assert forall|o: HeapOrStackTag, i: nat| i < self.arr(o).len() && (#[trigger] self.cell_of(o, i)).forwarding implies {
                &&& w.len() > 0
                &&& same_loc(w.last(), o, i)
                &&& w.last().tag() != IterStackLocTag::PendingMark
                &&& self.target_marked(self.cell_of(o, i).value)
            } by {
                if !same_loc(loc, o, i) {
                    assert(s.cell_of(o, i) == self.cell_of(o, i));
                }
            }
            assert forall|o: HeapOrStackTag, i: nat|
                i < self.arr(o).len() && (#[trigger] self.cell_of(o, i)).mark implies {
                    ||| has_clearer(w, o, i, w.len() - 1)
                    ||| (has_clearer(w, o, i, w.len() as int) && !self.cell_of(o, i).forwarding)
                } by {
                if !same_loc(loc, o, i) {
                    assert(s.cell_of(o, i) == self.cell_of(o, i));
                }
            }
            assert forall|p: int| 0 <= p < w.len() implies self.loc_ok(#[trigger] w[p]) by {
                assert(s.loc_ok(w[p]));
            }
            assert forall|i: int| 0 <= i < self.heap@.len() implies clean(#[trigger] self.heap@[i]) == self.start_heap@[i] by {
                assert(clean(s.heap@[i]) == s.start_heap@[i]);
            }
            assert forall|i: int| 0 <= i < self.machine_stack@.len() implies clean(#[trigger] self.machine_stack@[i]) == self.start_stack@[i] by {
                assert(clean(s.machine_stack@[i]) == s.start_stack@[i]);
            }
            if loc.origin() == HeapOrStackTag::Heap {
                lemma_marked_count_update(s.heap@, i0, c1);
            } else {
                lemma_marked_count_update(s.machine_stack@, i0, c1);
            }
            Self::lemma_walk_replaced(s, *self, loc, c1);
            assert(s.walk().cell(loc.origin(), loc.index()) == s.at(loc));
            assert(s.walk().target_marked(s.at(loc).value) == s.target_marked(s.at(loc).value));
            if !s.target_marked(s.at(loc).value) {
                assert(self.walk() == s.walk());
            }
        }
    }
}


impl StackfulPreOrderHeapIter {
    /// `self` holds the same cells, work list and focus as `o`.
    pub open spec fn unchanged(self, o: Self) -> bool {
        &&& self.heap_seq() == o.heap_seq()
        &&& self.stack_seq() == o.stack_seq()
        &&& self.work_list() == o.work_list()
        &&& self.focus_loc() == o.focus_loc()
        &&& self.same_start(o)
    }

    proof fn lemma_same_views(s: Self, t: Self)
        requires
            s.wf(),
            t.heap@ == s.heap@,
            t.machine_stack@ == s.machine_stack@,
            t.stack@ == s.stack@,
            t.same_start(s),
        ensures
            t.wf(),
    {
        assert forall|o: HeapOrStackTag| #![auto] t.arr(o) == s.arr(o) by {}
        assert forall|p: int| 0 <= p < t.stack@.len() implies t.loc_ok(#[trigger] t.stack@[p]) by {
            assert(s.loc_ok(s.stack@[p]));
        }
        assert forall|o: HeapOrStackTag, i: nat| i < t.arr(o).len() && (#[trigger] t.cell_of(o, i)).forwarding implies {
            &&& t.stack@.len() > 0
            &&& same_loc(t.stack@.last(), o, i)
            &&& t.stack@.last().tag() != IterStackLocTag::PendingMark
            &&& t.target_marked(t.cell_of(o, i).value)
        } by {
            assert(s.cell_of(o, i) == t.cell_of(o, i));
        }
        assert forall|o: HeapOrStackTag, i: nat| i < t.arr(o).len() && (#[trigger] t.cell_of(o, i)).mark implies {
            ||| has_clearer(t.stack@, o, i, t.stack@.len() - 1)
            ||| (has_clearer(t.stack@, o, i, t.stack@.len() as int) && !t.cell_of(o, i).forwarding)
        } by {
            assert(s.cell_of(o, i) == t.cell_of(o, i));
        }
    }

    proof fn lemma_forward_ready(self, loc: IterStackLoc)
        requires
            self.wf(),
            self.no_forwarding(),
            self.loc_ok(loc),
            self.stack@.len() > 0,
            !clears(self.stack@.last(), loc.origin(), loc.index()),
        ensures
            self.at(loc).mark ==> has_clearer(
                self.stack@,
                loc.origin(),
                loc.index(),
                self.stack@.len() - 1,
            ),
    {
        if self.at(loc).mark {
            assert(self.cell_of(loc.origin(), loc.index()).mark);
            if !has_clearer(self.stack@, loc.origin(), loc.index(), self.stack@.len() - 1) {
                lemma_clearer_below_top(self.stack@, loc.origin(), loc.index());
            }
        }
    }

    proof fn lemma_forwarding_cleared_keeps_marks(s: Self, t: Self, l: IterStackLoc, v: CellValue)
        requires
            s.loc_ok(l),
            t.cells_replaced(s, l, HeapCellValue { forwarding: false, ..s.at(l) }),
            match referent(v) {
                Some((st, j)) => j < s.arr(origin_of(st)).len(),
                None => true,
            },
        ensures
            t.target_marked(v) == s.target_marked(v),
    {
        match referent(v) {
            Some((st, j)) => {
                let o = origin_of(st);
                if same_loc(l, o, j as nat) {
                } else {
                    assert(t.cell_of(o, j as nat) == s.cell_of(o, j as nat));
                }
            },
            None => {},
        }
    }

    /// Pops entries until one yields a cell, or the work list is empty.
    fn follow(&mut self) -> (r: Option<HeapCellValue>)
        requires
            old(self).wf(),
        ensures
            final(self).wf(),
            final(self).same_start(*old(self)),
            exists|fuel: nat| run(old(self).walk(), fuel) == Some((r, final(self).walk())),
            old(self).work_list().len() == 0 ==> r is None && final(self).unchanged(*old(self)),
            r is None ==> final(self).work_list().len() == 0,
            r matches Some(c) ==> {
                &&& final(self).loc_ok(final(self).h)
                &&& final(self).h.tag() != IterStackLocTag::PendingMark
                &&& c == HeapCellValue { forwarding: c.forwarding, ..final(self).at(final(self).h) }
                &&& c.forwarding ==> final(self).target_marked(c.value)
            },
    {
        let ghost mut phase: int = 1;
        let ghost mut fuel: nat = 0;
        loop
            invariant
                self.wf(),
                self.same_start(*old(self)),
                phase == 0 || phase == 1,
                phase == 0 ==> self.chain_ready(),
                old(self).stack@.len() == 0 ==> self.stack@.len() == 0 && self.unchanged(*old(self)),
                forall|m: nat| #[trigger] run(self.walk(), m) == run(old(self).walk(), fuel + m),
            decreases phase, self.measure(phase),
        {
            let ghost s0 = *self;
            let ghost w0 = s0.walk();
            proof {
                s0.lemma_marks_bounded();
            }
            let h = match self.stack.pop() {
                Some(h) => h,
                None => {
                    proof {
                        Self::lemma_same_views(s0, *self);
                        assert(w0.work.len() == 0);
                        assert(self.walk() == w0);
                        lemma_run_stops(w0, None, w0, old(self).walk(), fuel);
                    }
                    return None;
                },
            };
            let ghost e = entry_of(h);
            let ghost w1 = Walk { work: w0.work.drop_last(), ..w0 };
            proof {
                assert(s0.loc_ok(s0.stack@[s0.stack@.len() - 1]));
                assert(h == s0.stack@.last());
                s0.lemma_cell_facts(h);
                assert(s0.cell_of(h.origin(), h.index()) == s0.at(h));
                assert(w0.work.last() == e);
                assert(self.stack@.map_values(|l: IterStackLoc| entry_of(l)) =~= w0.work.drop_last());
                assert(self.walk() == w1);
            }
            if h.is_pending_mark() {
                proof {
                    Self::lemma_pop_plain(s0, *self);
                }
                self.push_if_unmarked(h);
                let m = IterStackLoc::mark_loc(self.index_of(h), h.heap_or_stack());
                self.push_entry(m);
                proof {
                    self.lemma_forward_ready(h);
                }
                self.forward_if_referent_marked(h);
                proof {
                    phase = 0;
                    assert(step(w0) == Step::Skip(self.walk()));
                    lemma_run_skip(w0, self.walk(), old(self).walk(), fuel);
                    fuel = fuel + 1;
                }
                continue;
            }
            self.h = h;
            let ghost w2 = Walk { focus: e, ..w1 };
            let is_readable_marked = h.is_marked();
            let cell = self.read_loc(h);
            proof {
                assert(self.arr(h.origin()) == s0.arr(h.origin()));
                assert(cell == s0.at(h));
                assert(self.walk() == w2);
                assert(w2.cell(e.origin, e.index) == cell);
            }
            if cell.get_forwarding_bit() {
                let ghost m = *self;
                self.set_forwarding_at(h, false);
                proof {
                    Self::lemma_pop_forwarded(s0, m, *self);
                    Self::lemma_forwarding_cleared_keeps_marks(m, *self, h, cell.value);
                    Self::lemma_walk_replaced(m, *self, h, HeapCellValue { forwarding: false, ..cell });
                    assert(step(w0) == Step::Yield(cell, self.walk()));
                    lemma_run_stops(w0, Some(cell), self.walk(), old(self).walk(), fuel);
                }
                return Some(cell);
            } else if cell.get_mark_bit() && !is_readable_marked {
                let ghost m = *self;
                self.set_mark_at(h, false);
                proof {
                    Self::lemma_pop_clear(s0, m, *self);
                    Self::lemma_walk_replaced(m, *self, h, HeapCellValue { mark: false, ..cell });
                    assert(step(w0) == Step::Skip(self.walk()));
                    lemma_run_skip(w0, self.walk(), old(self).walk(), fuel);
                    fuel = fuel + 1;
                }
                continue;
            }
            proof {
                Self::lemma_pop_plain(s0, *self);
                assert(step(w0) == visit(w2, e, cell));
                assert(s0.at(s0.stack@.last()) == cell);
            }
            let v = self.visit_cell(h, cell);
            match v {
                Some(r) => {
                    proof {
                        lemma_run_stops(w0, Some(r), self.walk(), old(self).walk(), fuel);
                    }
                    return Some(r);
                },
                None => {
                    proof {
                        phase = 0;
                        lemma_run_skip(w0, self.walk(), old(self).walk(), fuel);
                        fuel = fuel + 1;
                    }
                },
            }
        }
    }

    /// Visits the cell `cell` of the popped entry `h`: yields it, or
    /// schedules the visit of the cell it refers to and returns `None`.
    fn visit_cell(&mut self, h: IterStackLoc, cell: HeapCellValue) -> (r: Option<HeapCellValue>)
        requires
            old(self).visiting(h),
            cell == old(self).at(h),
        ensures
            visit(old(self).walk(), entry_of(h), cell) == (match r {
                Some(c) => Step::Yield(c, final(self).walk()),
                None => Step::Skip(final(self).walk()),
            }),
            r matches Some(c) ==> final(self).yielded(*old(self), h, c),
            r is None ==> {
                &&& final(self).wf()
                &&& final(self).same_start(*old(self))
                &&& final(self).h == h
                &&& final(self).chain_ready()
                &&& is_chained(cell.value)
                &&& final(self).unmarked() <= old(self).unmarked()
                &&& final(self).top_weight() <= 1
                &&& (cell.value is Str || cell.value is PStrLoc) ==> final(self).top_weight() == 0
                &&& !old(self).target_marked(cell.value) ==> final(self).unmarked() + 1 == old(self).unmarked()
            },
    {
        proof {
            old(self).lemma_cell_facts(h);
        }
        match cell.value {
            CellValue::Str(vh) | CellValue::PStrLoc(vh) => {
                self.follow_reference(vh, HeapOrStackTag::Heap, false);
                None
            },
            CellValue::AttrVar(vh) | CellValue::Var(vh) => {
                proof {
                    assert(old(self).target_marked(cell.value) == old(self).cell_of(HeapOrStackTag::Heap, vh as nat).mark);
                }
                self.follow_reference(vh, HeapOrStackTag::Heap, true);
                None
            },
            CellValue::StackVar(vs) => {
                proof {
                    assert(old(self).target_marked(cell.value) == old(self).cell_of(HeapOrStackTag::Stack, vs as nat).mark);
                }
                self.follow_reference(vs, HeapOrStackTag::Stack, true);
                None
            },
            CellValue::Lis(vh) => Some(self.visit_list(h, vh)),
            CellValue::PStrOffset(offset) => Some(self.visit_pstr_offset(h, offset)),
            CellValue::PStr(_) => Some(self.visit_pstr(h)),
            CellValue::Atom(_name, arity) => Some(self.visit_atom(h, arity)),
            _ => {
                proof {
                    old(self).lemma_yielded(*old(self), h, cell);
                }
                Some(cell)
            },
        }
    }
}

impl StackfulPreOrderHeapIter {
    /// The state right after popping the entry `h` that is to be visited.
    spec fn visiting(self, h: IterStackLoc) -> bool {
        &&& self.wf()
        &&& self.no_forwarding()
        &&& self.loc_ok(h)
        &&& self.h == h
    }

    /// What a visit that yields the cell at `h` leaves behind.
    spec fn yielded(self, o: Self, h: IterStackLoc, r: HeapCellValue) -> bool {
        &&& self.wf()
        &&& self.same_start(o)
        &&& self.h == h
        &&& self.loc_ok(h)
        &&& r == self.at(h)
        &&& r == self.walk().cell(h.origin(), h.index())
        &&& r.forwarding ==> self.target_marked(r.value)
    }

    proof fn lemma_yielded(self, o: Self, h: IterStackLoc, r: HeapCellValue)
        requires
            self.wf(),
            self.same_start(o),
            self.h == h,
            self.loc_ok(h),
            r == self.at(h),
        ensures
            self.yielded(o, h, r),
    {
        assert(self.cell_of(h.origin(), h.index()) == self.at(h));
        assert(self.walk().cell(h.origin(), h.index()) == self.at(h));
    }

    /// Marks the cell at index `target` of `o` and schedules its visit:
    /// the step through a variable or a structure location.
    fn follow_reference(&mut self, target: usize, o: HeapOrStackTag, forward: bool)
        requires
            old(self).wf(),
            old(self).no_forwarding(),
            target < old(self).arr(o).len(),
            !forward ==> o == HeapOrStackTag::Heap && !is_chained(old(self).start_heap()[target as int].value),
        ensures
            final(self).wf(),
            final(self).same_start(*old(self)),
            final(self).h == old(self).h,
            final(self).chain_ready(),
            final(self).unmarked() <= old(self).unmarked(),
            !old(self).cell_of(o, target as nat).mark ==> final(self).unmarked() + 1 == old(self).unmarked(),
            !forward ==> final(self).top_weight() == 0,
            final(self).top_weight() <= 1,
            final(self).walk() == (if forward {
                old(self).walk().enter(o, target as nat)
            } else {
                old(self).walk().push_if_unmarked(o, target as nat).push(
                    entry(IterStackLocTag::Marked, o, target as nat),
                )
            }),
    {
        let loc = IterStackLoc::iterable_loc(target, o);
        proof {
            assert(old(self).at(loc) == old(self).cell_of(o, target as nat));
        }
        self.push_if_unmarked(loc);
        let m = IterStackLoc::mark_loc(target, o);
        self.push_entry(m);
        if forward {
            proof {
                self.lemma_forward_ready(loc);
            }
            self.forward_if_referent_marked(loc);
        } else {
            proof {
                self.lemma_cell_facts(m);
            }
        }
    }

    /// Visits a cons cell: its head next, then its tail.
    fn visit_list(&mut self, h: IterStackLoc, vh: usize) -> (r: HeapCellValue)
        requires
            old(self).visiting(h),
            old(self).at(h).value == CellValue::Lis(vh),
        ensures
            final(self).yielded(*old(self), h, r),
            final(self).walk() == old(self).walk().push_if_unmarked(HeapOrStackTag::Heap, vh as nat).push(
                entry(IterStackLocTag::PendingMark, HeapOrStackTag::Heap, (vh + 1) as nat),
            ).push(entry(IterStackLocTag::Marked, HeapOrStackTag::Heap, vh as nat)).forward(
                HeapOrStackTag::Heap,
                vh as nat,
            ),
    {
        proof {
            old(self).lemma_cell_facts(h);
        }
        let loc = IterStackLoc::iterable_loc(vh, HeapOrStackTag::Heap);
        self.push_if_unmarked(loc);
        self.push_entry(IterStackLoc::pending_mark_loc(vh + 1, HeapOrStackTag::Heap));
        self.push_entry(IterStackLoc::mark_loc(vh, HeapOrStackTag::Heap));
        proof {
            self.lemma_forward_ready(loc);
        }
        self.forward_if_referent_marked(loc);
        let r = self.read_loc(h);
        proof {
            self.lemma_yielded(*old(self), h, r);
        }
        r
    }

    /// Visits a view into a partial string: the string is marked, the
    /// offset in the next cell is visited next.
    fn visit_pstr_offset(&mut self, h: IterStackLoc, offset: usize) -> (r: HeapCellValue)
        requires
            old(self).visiting(h),
            old(self).at(h).value == CellValue::PStrOffset(offset),
        ensures
            final(self).yielded(*old(self), h, r),
            final(self).walk() == old(self).walk().push_if_unmarked(HeapOrStackTag::Heap, offset as nat).push(
                entry(IterStackLocTag::Iterable, HeapOrStackTag::Heap, (h.index() + 1) as nat),
            ),
    {
        proof {
            old(self).lemma_cell_facts(h);
        }
        self.push_if_unmarked(IterStackLoc::iterable_loc(offset, HeapOrStackTag::Heap));
        let i: usize = self.index_of(h);
        self.push_entry(IterStackLoc::iterable_loc(i + 1, HeapOrStackTag::Heap));
        let r = self.read_loc(h);
        proof {
            self.lemma_yielded(*old(self), h, r);
        }
        r
    }

    /// Visits a partial-string segment: its continuation is visited next.
    fn visit_pstr(&mut self, h: IterStackLoc) -> (r: HeapCellValue)
        requires
            old(self).visiting(h),
            old(self).at(h).value is PStr,
        ensures
            final(self).yielded(*old(self), h, r),
            final(self).walk() == old(self).walk().push_if_unmarked(HeapOrStackTag::Heap, h.index()).push(
                entry(IterStackLocTag::Iterable, HeapOrStackTag::Heap, (h.index() + 1) as nat),
            ).forward(HeapOrStackTag::Heap, (h.index() + 1) as nat),
    {
        proof {
            old(self).lemma_cell_facts(h);
        }
        let i: usize = self.index_of(h);
        let tail_loc = IterStackLoc::iterable_loc(i + 1, HeapOrStackTag::Heap);
        let ghost s1 = *self;
        proof {
            assert(s1.cell_of(HeapOrStackTag::Heap, (i + 1) as nat) == s1.at(tail_loc));
        }
        self.push_if_unmarked(IterStackLoc::iterable_loc(i, HeapOrStackTag::Heap));
        let ghost s2 = *self;
        self.push_entry(tail_loc);
        proof {
            assert(s2.at(tail_loc) == s1.at(tail_loc));
            assert(s1.stack@ =~= s2.stack@.subrange(0, s1.stack@.len() as int));
            assert(s2.stack@ =~= self.stack@.subrange(0, s2.stack@.len() as int));
            if s1.at(tail_loc).mark {
                lemma_clearer_prefix(s1.stack@, s2.stack@, HeapOrStackTag::Heap, (i + 1) as nat, s1.stack@.len() as int);
                lemma_clearer_prefix(s2.stack@, self.stack@, HeapOrStackTag::Heap, (i + 1) as nat, s1.stack@.len() as int);
            }
        }
        self.forward_if_referent_marked(tail_loc);
        let r = self.read_loc(h);
        proof {
            self.lemma_yielded(*old(self), h, r);
        }
        r
    }

    /// Visits a structure header: its arguments are visited left to right,
    /// the first one next.
    fn visit_atom(&mut self, h: IterStackLoc, arity: usize) -> (r: HeapCellValue)
        requires
            old(self).visiting(h),
            old(self).at(h).value is Atom,
            old(self).at(h).value->Atom_1 == arity,
        ensures
            final(self).yielded(*old(self), h, r),
            final(self).walk() == (if arity > 0 {
                old(self).walk().push_pendings(h.index(), (h.index() + arity) as nat).enter(
                    HeapOrStackTag::Heap,
                    (h.index() + 1) as nat,
                )
            } else {
                old(self).walk().push_pendings(h.index(), (h.index() + arity) as nat)
            }),
    {
        proof {
            old(self).lemma_cell_facts(h);
        }
        let l: usize = self.index_of(h);
        let mut k: usize = l + arity;
        while k > l + 1
            invariant
                self.wf(),
                self.no_forwarding(),
                self.same_start(*old(self)),
                self.h == h,
                self.loc_ok(h),
                l == h.index(),
                l + arity < self.heap@.len(),
                k <= l + arity,
                self.walk().push_pendings(l as nat, k as nat) == old(self).walk().push_pendings(
                    l as nat,
                    (l + arity) as nat,
                ),
            decreases k,
        {
            self.push_entry(IterStackLoc::pending_mark_loc(k, HeapOrStackTag::Heap));
            k = k - 1;
        }
        proof {
            assert(self.walk().push_pendings(l as nat, k as nat) == self.walk());
        }
        if arity > 0 {
            let first_arg_loc = IterStackLoc::iterable_loc(l + 1, HeapOrStackTag::Heap);
            self.push_if_unmarked(first_arg_loc);
            self.push_entry(IterStackLoc::mark_loc(l + 1, HeapOrStackTag::Heap));
            proof {
                self.lemma_forward_ready(first_arg_loc);
            }
            self.forward_if_referent_marked(first_arg_loc);
        }
        let r = self.read_loc(h);
        proof {
            self.lemma_yielded(*old(self), h, r);
        }
        r
    }
}


/// The entry `e` is passed over when peeking or force-popping: its cell is
/// marked, carries no forwarding bit, and `e` is not a `Marked` visit.
pub open spec fn passed_over(it: StackfulPreOrderHeapIter, e: IterStackLoc) -> bool {
    &&& !it.at(e).forwarding
    &&& it.at(e).mark
    &&& e.tag() != IterStackLocTag::Marked
}

impl StackfulPreOrderHeapIter {
    /// Appends `cell` to the heap as the root of the traversal and seeds the
    /// work list with it. The iterator owns `heap` and `machine_stack` until
    /// `finish` hands them back.
    pub fn new(heap: Vec<HeapCellValue>, machine_stack: Vec<HeapCellValue>, cell: HeapCellValue) -> (r: Self)
        requires
            heap@.len() + 1 < LOC_INDEX_BOUND,
            machine_stack@.len() < LOC_INDEX_BOUND,
            all_clean(heap@.push(cell)),
            all_clean(machine_stack@),
            heap_wf(heap@.push(cell), machine_stack@),
        ensures
            r.inv(),
            r.start_heap() == heap@.push(cell),
            r.start_stack() == machine_stack@,
            r.heap_seq() == heap@.push(cell),
            r.stack_seq() == machine_stack@,
            r.work_list().len() == 1,
            same_loc(r.work_list()[0], HeapOrStackTag::Heap, heap@.len()),
            r.work_list()[0].tag() == IterStackLocTag::Iterable,
            r.focus_loc() == r.work_list()[0],
            r.walk() == (Walk {
                heap: heap@.push(cell),
                stack: machine_stack@,
                work: seq![entry(IterStackLocTag::Iterable, HeapOrStackTag::Heap, heap@.len())],
                focus: entry(IterStackLocTag::Iterable, HeapOrStackTag::Heap, heap@.len()),
            }),
    {
        let mut heap = heap;
        let n: usize = heap.len();
        let h = IterStackLoc::iterable_loc(n, HeapOrStackTag::Heap);
        heap.push(cell);
        let _m: usize = machine_stack.len();
        let _n1: usize = heap.len();
        let ghost hs = heap@;
        let ghost ms = machine_stack@;
        let r = StackfulPreOrderHeapIter {
            heap,
            machine_stack,
            stack: vec![h],
            h,
            start_heap: Ghost(hs),
            start_stack: Ghost(ms),
        };
        proof {
            assert forall|i: int| 0 <= i < r.heap@.len() implies clean(#[trigger] r.heap@[i]) == r.start_heap@[i] by {
                assert(crate::cell::is_clean(r.heap@[i]));
            }
            assert forall|i: int| 0 <= i < r.machine_stack@.len() implies clean(#[trigger] r.machine_stack@[i]) == r.start_stack@[i] by {
                assert(crate::cell::is_clean(r.machine_stack@[i]));
            }
            assert forall|o: HeapOrStackTag, i: nat| i < r.arr(o).len() implies !(#[trigger] r.cell_of(o, i)).mark && !r.cell_of(o, i).forwarding by {
                if o == HeapOrStackTag::Heap {
                    assert(crate::cell::is_clean(r.heap@[i as int]));
                } else {
                    assert(crate::cell::is_clean(r.machine_stack@[i as int]));
                }
            }
            assert(r.loc_ok(r.stack@[0]));
            assert(r.stack@.map_values(|l: IterStackLoc| entry_of(l)) =~= seq![
                entry(IterStackLocTag::Iterable, HeapOrStackTag::Heap, (hs.len() - 1) as nat),
            ]);
        }
        r
    }

    /// Every cell with a traversal bit set has an entry on the work list.
    spec fn dirty_covered(self) -> bool {
        forall|o: HeapOrStackTag, i: nat|
            i < self.arr(o).len() && ((#[trigger] self.cell_of(o, i)).mark || self.cell_of(o, i).forwarding)
                ==> exists|p: int| 0 <= p < self.stack@.len() && same_loc(#[trigger] self.stack@[p], o, i)
    }

    /// Ends the traversal: clears the bits of every cell still on the work
    /// list, removes the appended root and hands back the heap and the
    /// machine stack exactly as they were given to `new`.
    pub fn finish(self) -> (r: (Vec<HeapCellValue>, Vec<HeapCellValue>))
        requires
            self.inv(),
        ensures
            r.0@ == self.start_heap().drop_last(),
            r.1@ == self.start_stack(),
            all_clean(r.0@),
            all_clean(r.1@),
    {
        let mut it = self;
        proof {
            lemma_bits_accounted(it);
        }
        loop
            invariant_except_break
                it.dirty_covered(),
            invariant
                it.heap@.len() == self.heap@.len(),
                it.machine_stack@.len() == self.machine_stack@.len(),
                it.same_start(self),
                it.heap@.len() == it.start_heap@.len(),
                it.machine_stack@.len() == it.start_stack@.len(),
                it.start_heap@.len() > 0,
                all_clean(it.start_heap@),
                all_clean(it.start_stack@),
                forall|i: int| 0 <= i < it.heap@.len() ==> clean(#[trigger] it.heap@[i]) == it.start_heap@[i],
                forall|i: int| 0 <= i < it.machine_stack@.len() ==> clean(#[trigger] it.machine_stack@[i]) == it.start_stack@[i],
                forall|p: int| 0 <= p < it.stack@.len() ==> it.loc_ok(#[trigger] it.stack@[p]),
            ensures
                forall|o: HeapOrStackTag, i: nat|
                    i < it.arr(o).len() ==> !(#[trigger] it.cell_of(o, i)).mark && !it.cell_of(o, i).forwarding,
            decreases it.stack@.len(),
        {
            let ghost s0 = it;
            match it.stack.pop() {
                Some(h) => {
                    proof {
                        assert(s0.loc_ok(s0.stack@[s0.stack@.len() - 1]));
                    }
                    let mut c = it.read_loc(h);
                    c.set_forwarding_bit(false);
                    c.set_mark_bit(false);
                    it.write_loc(h, c);
                    proof {
                        assert forall|i: int| 0 <= i < it.heap@.len() implies clean(#[trigger] it.heap@[i]) == it.start_heap@[i] by {
                            assert(clean(s0.heap@[i]) == s0.start_heap@[i]);
                        }
                        assert forall|i: int| 0 <= i < it.machine_stack@.len() implies clean(#[trigger] it.machine_stack@[i]) == it.start_stack@[i] by {
                            assert(clean(s0.machine_stack@[i]) == s0.start_stack@[i]);
                        }
                        assert forall|p: int| 0 <= p < it.stack@.len() implies it.loc_ok(#[trigger] it.stack@[p]) by {
                            assert(s0.loc_ok(s0.stack@[p]));
                        }
                        assert forall|o: HeapOrStackTag, i: nat|
                            i < it.arr(o).len() && ((#[trigger] it.cell_of(o, i)).mark || it.cell_of(o, i).forwarding)
                                implies exists|p: int| 0 <= p < it.stack@.len() && same_loc(#[trigger] it.stack@[p], o, i) by {
                            assert(!same_loc(h, o, i));
                            assert(it.cell_of(o, i) == s0.cell_of(o, i));
                            let p = choose|p: int| 0 <= p < s0.stack@.len() && same_loc(#[trigger] s0.stack@[p], o, i);
                            assert(p != s0.stack@.len() - 1);
                            assert(same_loc(it.stack@[p], o, i));
                        }
                    }
                },
                None => {
                    proof {
                        assert forall|o: HeapOrStackTag, i: nat|
                            i < it.arr(o).len() implies !(#[trigger] it.cell_of(o, i)).mark && !it.cell_of(o, i).forwarding by {
                            assert(it.cell_of(o, i) == s0.cell_of(o, i));
                        }
                    }
                    break;
                },
            }
        }
        proof {
            assert forall|i: int| 0 <= i < it.heap@.len() implies it.heap@[i] == it.start_heap@[i] by {
                assert(clean(it.heap@[i]) == it.start_heap@[i]);
                assert(crate::cell::is_clean(it.start_heap@[i]));
                assert(!it.cell_of(HeapOrStackTag::Heap, i as nat).mark);
                assert(!it.cell_of(HeapOrStackTag::Heap, i as nat).forwarding);
            }
            assert forall|i: int| 0 <= i < it.machine_stack@.len() implies it.machine_stack@[i] == it.start_stack@[i] by {
                assert(clean(it.machine_stack@[i]) == it.start_stack@[i]);
                assert(crate::cell::is_clean(it.start_stack@[i]));
                assert(!it.cell_of(HeapOrStackTag::Stack, i as nat).mark);
                assert(!it.cell_of(HeapOrStackTag::Stack, i as nat).forwarding);
            }
            assert(it.heap@ =~= it.start_heap@);
            assert(it.machine_stack@ =~= it.start_stack@);
        }
        let mut heap = it.heap;
        heap.pop();
        proof {
            assert(heap@ =~= self.start_heap@.drop_last());
            assert forall|i: int| 0 <= i < heap@.len() implies #[trigger] crate::cell::is_clean(heap@[i]) by {
                assert(crate::cell::is_clean(self.start_heap@[i]));
            }
        }
        (heap, it.machine_stack)
    }
}

impl FocusedHeapIter for StackfulPreOrderHeapIter {
    open spec fn inv(&self) -> bool {
        self.wf()
    }

    open spec fn current_focus(&self) -> IterStackLoc {
        self.focus_loc()
    }

    open spec fn start_state(&self) -> (Seq<HeapCellValue>, Seq<HeapCellValue>) {
        (self.start_heap(), self.start_stack())
    }

    open spec fn exhausted(&self) -> bool {
        self.work_list().len() == 0
    }

    /// The steps of `walk::step` from `before` up to the first that yields,
    /// or to the empty work list, lead to `after`.
    open spec fn next_rel(before: Self, r: Option<HeapCellValue>, after: Self) -> bool {
        exists|fuel: nat| run(before.walk(), fuel) == Some((r, after.walk()))
    }

    /// The next cell in pre-order; a cell whose forwarding bit is set is a
    /// cycle sentinel: a reference to a cell still on the active path.
    /// Each call takes the steps of `walk::step` from the current state up
    /// to the first that yields, or to the empty work list.
    fn next(&mut self) -> (r: Option<HeapCellValue>)
        ensures
            final(self).same_start(*old(self)),
            exists|fuel: nat| run(old(self).walk(), fuel) == Some((r, final(self).walk())),
            old(self).work_list().len() == 0 ==> r is None && final(self).unchanged(*old(self)),
            r is None ==> final(self).work_list().len() == 0,
            r matches Some(c) ==> {
                &&& final(self).loc_ok(final(self).focus_loc())
                &&& final(self).focus_loc().tag() != IterStackLocTag::PendingMark
                &&& c == HeapCellValue { forwarding: c.forwarding, ..final(self).at(final(self).focus_loc()) }
                &&& c.forwarding ==> final(self).target_marked(c.value)
            },
    {
        self.follow()
    }

    fn focus(&self) -> (r: IterStackLoc) {
        self.h
    }
}


impl StackfulPreOrderHeapIter {
    /// The heap, the appended root included.
    pub fn heap(&self) -> (r: &Vec<HeapCellValue>)
        ensures
            r@ == self.heap_seq(),
    {
        &self.heap
    }

    /// The machine stack.
    pub fn machine_stack(&self) -> (r: &Vec<HeapCellValue>)
        ensures
            r@ == self.stack_seq(),
    {
        &self.machine_stack
    }

    /// The cell at `loc`.
    pub fn read_cell(&self, loc: IterStackLoc) -> (r: HeapCellValue)
        requires
            self.loc_ok(loc),
        ensures
            r == self.at(loc),
    {
        self.read_loc(loc)
    }

    /// A mutable borrow of the cell at `loc`. Changing its bits or its value
    /// may break the iterator's invariant.
    pub fn read_cell_mut(&mut self, loc: IterStackLoc) -> (r: &mut HeapCellValue)
        requires
            old(self).loc_ok(loc),
        ensures
            *r == old(self).at(loc),
            final(self).cells_replaced(*old(self), loc, *final(r)),
            final(self).work_list() == old(self).work_list(),
            final(self).focus_loc() == old(self).focus_loc(),
    {
        let i: usize = self.index_of(loc);
        match loc.heap_or_stack() {
            HeapOrStackTag::Heap => &mut self.heap[i],
            HeapOrStackTag::Stack => &mut self.machine_stack[i],
        }
    }

    /// The number of entries on the work list.
    pub fn stack_len(&self) -> (r: usize)
        ensures
            r == self.work_list().len(),
    {
        self.stack.len()
    }

    /// Pushes an entry on the work list. Forwarding bits may stand only on
    /// the cell of the entry pushed, and on none if it is a pending entry.
    pub fn push_stack(&mut self, h: IterStackLoc)
        requires
            old(self).inv(),
            old(self).loc_ok(h),
            old(self).forwarding_only_at(h),
            h.tag() == IterStackLocTag::PendingMark ==> old(self).no_forwarding(),
        ensures
            final(self).inv(),
            final(self).work_list() == old(self).work_list().push(h),
            final(self).heap_seq() == old(self).heap_seq(),
            final(self).stack_seq() == old(self).stack_seq(),
            final(self).focus_loc() == old(self).focus_loc(),
            final(self).same_start(*old(self)),
            final(self).walk() == old(self).walk().push(entry_of(h)),
    {
        self.stack.push(h);
        proof {
            Self::lemma_walk_push(*old(self), *self, h);
            let w0 = old(self).stack@;
            let w = self.stack@;
            assert(w0 == w.subrange(0, w0.len() as int));
            assert forall|o: HeapOrStackTag, i: nat| i < self.arr(o).len() && (#[trigger] self.cell_of(o, i)).forwarding implies {
                &&& w.len() > 0
                &&& same_loc(w.last(), o, i)
                &&& w.last().tag() != IterStackLocTag::PendingMark
                &&& self.target_marked(self.cell_of(o, i).value)
            } by {
                assert(old(self).cell_of(o, i) == self.cell_of(o, i));
            }
            assert forall|o: HeapOrStackTag, i: nat|
                i < self.arr(o).len() && (#[trigger] self.cell_of(o, i)).mark implies has_clearer(w, o, i, w.len() - 1) by {
                assert(old(self).cell_of(o, i) == self.cell_of(o, i));
                lemma_clearer_prefix(w0, w, o, i, w0.len() as int);
                if has_clearer(w0, o, i, w0.len() - 1) {
                    lemma_clearer_prefix(w0, w, o, i, w0.len() - 1);
                }
            }
            assert forall|p: int| 0 <= p < w.len() implies self.loc_ok(#[trigger] w[p]) by {
                if p < w0.len() {
                    assert(w[p] == w0[p]);
                }
            }
        }
    }

    /// The entry that the next force-pop would stop at, without popping:
    /// the topmost entry that is not passed over.
    pub fn stack_last(&self) -> (r: Option<IterStackLoc>)
        requires
            self.inv(),
        ensures
            r is None ==> forall|p: int| 0 <= p < self.work_list().len() ==> passed_over(*self, #[trigger] self.work_list()[p]),
            r matches Some(e) ==> exists|p: int| {
                &&& 0 <= p < self.work_list().len()
                &&& e == self.work_list()[p]
                &&& !passed_over(*self, e)
                &&& forall|q: int| p < q < self.work_list().len() ==> passed_over(*self, #[trigger] self.work_list()[q])
            },
    {
        let mut k: usize = self.stack.len();
        while k > 0
            invariant
                self.wf(),
                k <= self.stack@.len(),
                forall|q: int| k <= q < self.stack@.len() ==> passed_over(*self, #[trigger] self.stack@[q]),
            decreases k,
        {
            let h = self.stack[k - 1];
            proof {
                assert(self.loc_ok(self.stack@[k - 1]));
            }
            let is_readable_marked = h.is_marked();
            let cell = self.read_loc(h);
            if cell.get_forwarding_bit() {
                proof {
                    let p = k - 1;
                    assert(self.work_list()[p] == h);
                    assert(forall|q: int| p < q < self.work_list().len() ==> passed_over(*self, #[trigger] self.work_list()[q]));
                }
                return Some(h);
            } else if cell.get_mark_bit() && !is_readable_marked {
                k = k - 1;
                continue;
            }
            proof {
                let p = k - 1;
                assert(self.work_list()[p] == h);
                assert(forall|q: int| p < q < self.work_list().len() ==> passed_over(*self, #[trigger] self.work_list()[q]));
            }
            return Some(h);
        }
        None
    }

    /// Pops entries until one that is not passed over, clearing the marks
    /// of those passed over, and returns the cell of the one it stops at
    /// (with its forwarding bit cleared): the steps of
    /// `walk::force_pop_step`.
    pub fn pop_stack(&mut self) -> (r: Option<HeapCellValue>)
        requires
            old(self).inv(),
        ensures
            final(self).inv(),
            final(self).same_start(*old(self)),
            final(self).start_state() == old(self).start_state(),
            exists|fuel: nat| run_force_pop(old(self).walk(), fuel) == Some((r, final(self).walk())),
            final(self).work_list().len() <= old(self).work_list().len(),
            final(self).work_list() == old(self).work_list().subrange(0, final(self).work_list().len() as int),
            r is None ==> final(self).work_list().len() == 0,
            r matches Some(c) ==> {
                &&& final(self).work_list().len() < old(self).work_list().len()
                &&& final(self).focus_loc() == old(self).work_list()[final(self).work_list().len() as int]
                &&& final(self).loc_ok(final(self).focus_loc())
                &&& c == final(self).at(final(self).focus_loc())
            },
    {
        let ghost mut fuel: nat = 0;
        loop
            invariant
                self.wf(),
                self.same_start(*old(self)),
                self.stack@.len() <= old(self).stack@.len(),
                self.stack@ == old(self).stack@.subrange(0, self.stack@.len() as int),
                forall|m: nat| #[trigger] run_force_pop(self.walk(), m) == run_force_pop(old(self).walk(), fuel + m),
            decreases self.stack@.len(),
        {
            let ghost s0 = *self;
            let ghost w0 = s0.walk();
            let h = match self.stack.pop() {
                Some(h) => h,
                None => {
                    proof {
                        Self::lemma_same_views(s0, *self);
                        assert(self.walk() == w0);
                        lemma_force_pop_stops(w0, None, w0, old(self).walk(), fuel);
                    }
                    return None;
                },
            };
            let ghost e = entry_of(h);
            proof {
                assert(s0.loc_ok(s0.stack@[s0.stack@.len() - 1]));
                assert(h == s0.stack@.last());
                assert(s0.cell_of(h.origin(), h.index()) == s0.at(h));
                assert(self.stack@ =~= old(self).stack@.subrange(0, self.stack@.len() as int));
                assert(w0.work.last() == e);
                assert(self.stack@.map_values(|l: IterStackLoc| entry_of(l)) =~= w0.work.drop_last());
            }
            let is_readable_marked = h.is_marked();
            self.h = h;
            let cell = self.read_loc(h);
            proof {
                assert(self.arr(h.origin()) == s0.arr(h.origin()));
                assert(self.walk() == Walk { work: w0.work.drop_last(), focus: e, ..w0 });
                assert(self.walk().cell(e.origin, e.index) == cell);
            }
            if cell.get_forwarding_bit() {
                let ghost m = *self;
                self.set_forwarding_at(h, false);
                proof {
                    Self::lemma_pop_forwarded(s0, m, *self);
                    Self::lemma_walk_replaced(m, *self, h, HeapCellValue { forwarding: false, ..cell });
                }
                let r = self.read_loc(h);
                proof {
                    assert(force_pop_step(w0) == Step::Yield(r, self.walk()));
                    lemma_force_pop_stops(w0, Some(r), self.walk(), old(self).walk(), fuel);
                }
                return Some(r);
            } else if cell.get_mark_bit() && !is_readable_marked {
                let ghost m = *self;
                self.set_mark_at(h, false);
                proof {
                    Self::lemma_pop_clear(s0, m, *self);
                    Self::lemma_walk_replaced(m, *self, h, HeapCellValue { mark: false, ..cell });
                    assert(force_pop_step(w0) == Step::Skip(self.walk()));
                    lemma_force_pop_skip(w0, self.walk(), old(self).walk(), fuel);
                    fuel = fuel + 1;
                }
                continue;
            }
            proof {
                Self::lemma_pop_plain(s0, *self);
                assert(force_pop_step(w0) == Step::Yield(cell, self.walk()));
                lemma_force_pop_stops(w0, Some(cell), self.walk(), old(self).walk(), fuel);
            }
            return Some(cell);
        }
    }
}

/// Starts a pre-order traversal of `cell` over `heap` and `machine_stack`.
pub fn stackful_preorder_iter(
    heap: Vec<HeapCellValue>,
    machine_stack: Vec<HeapCellValue>,
    cell: HeapCellValue,
) -> (r: StackfulPreOrderHeapIter)
    requires
        heap@.len() + 1 < LOC_INDEX_BOUND,
        machine_stack@.len() < LOC_INDEX_BOUND,
        all_clean(heap@.push(cell)),
        all_clean(machine_stack@),
        heap_wf(heap@.push(cell), machine_stack@),
    ensures
        r.inv(),
        r.start_heap() == heap@.push(cell),
        r.start_stack() == machine_stack@,
        r.heap_seq() == heap@.push(cell),
        r.stack_seq() == machine_stack@,
        r.work_list().len() == 1,
        same_loc(r.work_list()[0], HeapOrStackTag::Heap, heap@.len()),
        r.work_list()[0].tag() == IterStackLocTag::Iterable,
        r.focus_loc() == r.work_list()[0],
        r.walk() == (Walk {
            heap: heap@.push(cell),
            stack: machine_stack@,
            work: seq![entry(IterStackLocTag::Iterable, HeapOrStackTag::Heap, heap@.len())],
            focus: entry(IterStackLocTag::Iterable, HeapOrStackTag::Heap, heap@.len()),
        }),
{
    StackfulPreOrderHeapIter::new(heap, machine_stack, cell)
}


/// The cells of `it` hold the values they held at construction; only
/// their traversal bits may differ.
pub open spec fn keeps_contents(it: StackfulPreOrderHeapIter) -> bool {
    &&& it.heap_seq().len() == it.start_heap().len()
    &&& it.stack_seq().len() == it.start_stack().len()
    &&& forall|i: int| 0 <= i < it.heap_seq().len() ==> clean(#[trigger] it.heap_seq()[i]) == it.start_heap()[i]
    &&& forall|i: int| 0 <= i < it.stack_seq().len() ==> clean(#[trigger] it.stack_seq()[i]) == it.start_stack()[i]
}

/// Every cell with its mark or forwarding bit set has an entry on the work
/// list of `it`.
pub open spec fn bits_accounted(it: StackfulPreOrderHeapIter) -> bool {
    forall|o: HeapOrStackTag, i: nat|
        i < it.arr(o).len() && ((#[trigger] it.cell_of(o, i)).mark || it.cell_of(o, i).forwarding)
            ==> exists|p: int| 0 <= p < it.work_list().len() && same_loc(#[trigger] it.work_list()[p], o, i)
}

/// At every point of a traversal the heap and the machine stack hold the
/// values they held when the traversal began, whose bits were all clear:
/// the traversal changes nothing but mark and forwarding bits.
pub proof fn lemma_contents_preserved(it: StackfulPreOrderHeapIter)
    requires
        it.inv(),
    ensures
        keeps_contents(it),
        all_clean(it.start_heap()),
        all_clean(it.start_stack()),
{
}

/// At every point of a traversal each bit that is set belongs to a cell
/// that some work-list entry names, so clearing the cells of the work list
/// clears every bit.
pub proof fn lemma_bits_accounted(it: StackfulPreOrderHeapIter)
    requires
        it.inv(),
    ensures
        bits_accounted(it),
{
    assert forall|o: HeapOrStackTag, i: nat|
        i < it.arr(o).len() && ((#[trigger] it.cell_of(o, i)).mark || it.cell_of(o, i).forwarding)
            implies exists|p: int| 0 <= p < it.work_list().len() && same_loc(#[trigger] it.work_list()[p], o, i) by {
        let w = it.work_list();
        if it.cell_of(o, i).forwarding {
            assert(same_loc(w[w.len() - 1], o, i));
        } else {
            let p = choose|p: int| 0 <= p < w.len() && #[trigger] clears(w[p], o, i);
            assert(same_loc(w[p], o, i));
        }
    }
}

} // verus!
