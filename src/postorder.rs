//! The post-order adapter: reorders a pre-order stream so that each
//! compound cell comes after the cells of its arguments.
use vstd::prelude::*;
use crate::cell::{CellValue, HeapCellValue};
use crate::loc::{HeapOrStackTag, IterStackLoc, IterStackLocTag, LOC_INDEX_BOUND};
use crate::heap::{all_clean, heap_wf};
use crate::preorder::{FocusedHeapIter, StackfulPreOrderHeapIter};
use crate::walk::{entry, force_pops, lemma_force_pop_once, run_force_pop, Walk};

verus! {

/// A parent waiting for its children: how many are still to come, the
/// parent cell and where it was found.
pub type Frame = (usize, HeapCellValue, IterStackLoc);

/// How many children a cell has in the pre-order stream.
pub open spec fn children(c: HeapCellValue) -> Option<usize> {
    match c.value {
        CellValue::Atom(_, n) => Some(n),
        CellValue::Lis(_) => Some(2usize),
        CellValue::PStr(_) | CellValue::PStrOffset(_) => Some(1usize),
        _ => None,
    }
}

/// What the adapter emits, starting from the open parents `frames`, when
/// its base yields `input` and then nothing.
pub open spec fn emits(frames: Seq<Frame>, input: Seq<(HeapCellValue, IterStackLoc)>) -> Seq<
    (HeapCellValue, IterStackLoc),
>
    decreases input.len(), frames.len(),
{
    if frames.len() > 0 && (frames.last().0 == 0 || input.len() == 0) {
        seq![(frames.last().1, frames.last().2)] + emits(frames.drop_last(), input)
    } else if input.len() > 0 {
        let f1 = if frames.len() > 0 {
            frames.drop_last().push(((frames.last().0 - 1) as usize, frames.last().1, frames.last().2))
        } else {
            frames
        };
        let x = input[0];
        match children(x.0) {
            Some(k) => emits(f1.push((k, x.0, x.1)), input.skip(1)),
            None => seq![x] + emits(f1, input.skip(1)),
        }
    } else {
        seq![]
    }
}

/// `frames` with one child fewer expected by its innermost parent.
pub open spec fn consume_child(frames: Seq<Frame>) -> Seq<Frame> {
    if frames.len() > 0 {
        frames.drop_last().push(((frames.last().0 - 1) as usize, frames.last().1, frames.last().2))
    } else {
        frames
    }
}

proof fn lemma_emits_pull(frames: Seq<Frame>, x: (HeapCellValue, IterStackLoc), rest: Seq<(HeapCellValue, IterStackLoc)>)
    requires
        frames.len() == 0 || frames.last().0 > 0,
    ensures
        emits(frames, seq![x] + rest) == match children(x.0) {
            Some(k) => emits(consume_child(frames).push((k, x.0, x.1)), rest),
            None => seq![x] + emits(consume_child(frames), rest),
        },
{
    let input = seq![x] + rest;
    assert(input[0] == x);
    assert(input.skip(1) =~= rest);
}

proof fn lemma_emits_drain(frames: Seq<Frame>)
    requires
        frames.len() > 0,
    ensures
        emits(consume_child(frames), seq![]) == emits(frames, seq![]),
{
    let f1 = consume_child(frames);
    assert(f1.drop_last() =~= frames.drop_last());
}

/// The post-order reordering of a complete pre-order stream: each cell
/// with children is moved after as many subterms as it has children.
pub open spec fn post_order(input: Seq<(HeapCellValue, IterStackLoc)>) -> Seq<(HeapCellValue, IterStackLoc)> {
    emits(seq![], input)
}

pub open spec fn frames_weight(frames: Seq<Frame>) -> nat
    decreases frames.len(),
{
    if frames.len() == 0 {
        0
    } else {
        frames_weight(frames.drop_last()) + frames.last().0 as nat + 1
    }
}

/// The largest number of cells the adapter pulls from its base; past it the
/// base counts as exhausted.
pub const PULL_BUDGET: u64 = 0xffff_ffff_ffff_ffff;

/// Wraps a pre-order iterator and yields its cells in post-order. The
/// adapter owns its base; `into_base` hands it back.
pub struct PostOrderIterator<Iter: FocusedHeapIter> {
    focus: IterStackLoc,
    base_iter: Iter,
    base_iter_valid: bool,
    parent_stack: Vec<Frame>,
    pull_budget: u64,
    pulled: Ghost<Seq<(HeapCellValue, IterStackLoc)>>,
    emitted: Ghost<Seq<(HeapCellValue, IterStackLoc)>>,
    history: Ghost<Seq<Iter>>,
    ended: Ghost<bool>,
}

impl<Iter: FocusedHeapIter> PostOrderIterator<Iter> {
    pub closed spec fn base_view(self) -> Iter {
        self.base_iter
    }

    pub closed spec fn frames(self) -> Seq<Frame> {
        self.parent_stack@
    }

    pub closed spec fn base_valid(self) -> bool {
        self.base_iter_valid
    }

    pub closed spec fn focus_loc(self) -> IterStackLoc {
        self.focus
    }

    /// The cells pulled from the base so far, each with the base's focus.
    pub closed spec fn pulled(self) -> Seq<(HeapCellValue, IterStackLoc)> {
        self.pulled@
    }

    /// The cells emitted so far, each with the focus it was emitted at.
    pub closed spec fn emitted(self) -> Seq<(HeapCellValue, IterStackLoc)> {
        self.emitted@
    }

    /// The states the base went through: where it started, and its state
    /// after each call of its `next`.
    pub closed spec fn history(self) -> Seq<Iter> {
        self.history@
    }

    /// The base's `next` has returned `None`.
    pub closed spec fn ended(self) -> bool {
        self.ended@
    }

    /// How many more calls of the base's `next` the adapter may make.
    pub closed spec fn pulls_left(self) -> nat {
        self.pull_budget as nat
    }

    pub closed spec fn wf(self) -> bool {
        self.base_iter.inv()
    }

    /// The pulled cells are what the base yielded: each with the base's
    /// focus right after the call that yielded it. The base stops being
    /// pulled once its `next` returned `None` or the budget is spent.
    pub open spec fn faithful(self) -> bool {
        let h = self.history();
        let p = self.pulled();
        let n = p.len() as int;
        &&& h.len() == n + 1 + (if self.ended() { 1int } else { 0int })
        &&& h.last() == self.base_view()
        &&& forall|k: int|
            0 <= k < n ==> Iter::next_rel(h[k], Some((#[trigger] p[k]).0), h[k + 1]) && p[k].1
                == h[k + 1].current_focus()
        &&& self.ended() ==> Iter::next_rel(h[n], None, h[n + 1]) && h[n + 1].exhausted()
        &&& n + self.pulls_left() + (if self.ended() { 1int } else { 0int }) == PULL_BUDGET
        &&& self.base_valid() ==> !self.ended()
        &&& !self.base_valid() ==> self.ended() || self.pulls_left() == 0
    }

    /// The cells emitted so far and the open parents account for what was
    /// pulled: whatever the base yields next, the whole output is the
    /// post-order reordering of the whole input.
    pub closed spec fn tracks(self) -> bool {
        if self.base_iter_valid {
            forall|fut: Seq<(HeapCellValue, IterStackLoc)>|
                #[trigger] post_order(self.pulled@ + fut) == self.emitted@ + emits(self.parent_stack@, fut)
        } else {
            post_order(self.pulled@) == self.emitted@ + emits(self.parent_stack@, seq![])
        }
    }

    /// An adapter that has pulled and emitted nothing yet.
    pub fn new(base_iter: Iter) -> (r: Self)
        requires
            base_iter.inv(),
        ensures
            r.wf(),
            r.tracks(),
            r.base_view() == base_iter,
            r.frames().len() == 0,
            r.base_valid(),
            r.pulled().len() == 0,
            r.emitted().len() == 0,
            r.faithful(),
            r.history() == seq![base_iter],
            r.focus_loc().index() == 0,
            r.focus_loc().tag() == IterStackLocTag::Iterable,
            r.focus_loc().origin() == HeapOrStackTag::Heap,
    {
        let ghost none: Seq<(HeapCellValue, IterStackLoc)> = seq![];
        let ghost hist: Seq<Iter> = seq![base_iter];
        let r = PostOrderIterator {
            focus: IterStackLoc::iterable_loc(0, HeapOrStackTag::Heap),
            base_iter,
            base_iter_valid: true,
            parent_stack: Vec::new(),
            pull_budget: PULL_BUDGET,
            pulled: Ghost(none),
            emitted: Ghost(none),
            history: Ghost(hist),
            ended: Ghost(false),
        };
        proof {
            assert forall|fut: Seq<(HeapCellValue, IterStackLoc)>|
                #[trigger] post_order(r.pulled@ + fut) == r.emitted@ + emits(r.parent_stack@, fut) by {
                assert(r.pulled@ + fut =~= fut);
                assert(r.emitted@ + emits(r.parent_stack@, fut) =~= emits(r.parent_stack@, fut));
                assert(r.parent_stack@ =~= seq![]);
            }
        }
        r
    }

    /// The wrapped pre-order iterator.
    pub fn base(&self) -> (r: &Iter)
        ensures
            *r == self.base_view(),
    {
        &self.base_iter
    }

    /// Ends the adapter and hands back the wrapped iterator.
    pub fn into_base(self) -> (r: Iter)
        requires
            self.wf(),
        ensures
            r == self.base_view(),
            r.inv(),
    {
        self.base_iter
    }

    /// Whether heap index `idx_loc` is an argument of the innermost open
    /// structure.
    pub fn direct_subterm_of_str(&self, idx_loc: usize) -> (r: bool)
        ensures
            r == (self.frames().len() > 0 && match self.frames().last().1.value {
                CellValue::Atom(_, n) => self.frames().last().2.index() < idx_loc
                    && idx_loc <= self.frames().last().2.index() + n,
                _ => false,
            }),
    {
        let n: usize = self.parent_stack.len();
        if n > 0 {
            let (_child_count, item, focus) = self.parent_stack[n - 1];
            match item.value {
                CellValue::Atom(_name, arity) => {
                    let f: u64 = focus.value();
                    let i: u64 = idx_loc as u64;
                    return f < i && ((i - f) as usize) <= arity;
                },
                _ => {},
            }
        }
        false
    }
}


/// Once the base is no longer pulled and every open parent has been
/// emitted, the adapter has emitted exactly the post-order reordering of
/// everything its base yielded; it stopped pulling because the base
/// returned `None`, or after `PULL_BUDGET` cells.
pub proof fn lemma_post_order_complete<Iter: FocusedHeapIter>(it: PostOrderIterator<Iter>)
    requires
        it.tracks(),
        it.faithful(),
        !it.base_valid(),
        it.frames().len() == 0,
    ensures
        it.emitted() == post_order(it.pulled()),
        it.ended() || it.pulled().len() == PULL_BUDGET,
{
    assert(it.emitted@ + emits(it.parent_stack@, seq![]) =~= it.emitted@);
}

impl<Iter: FocusedHeapIter> FocusedHeapIter for PostOrderIterator<Iter> {
    open spec fn inv(&self) -> bool {
        self.wf()
    }

    open spec fn current_focus(&self) -> IterStackLoc {
        self.focus_loc()
    }

    open spec fn start_state(&self) -> (Seq<HeapCellValue>, Seq<HeapCellValue>) {
        self.base_view().start_state()
    }

    open spec fn exhausted(&self) -> bool {
        !self.base_valid() && self.frames().len() == 0
    }

    /// One call of `next`: the history of the base and the pulled cells
    /// only grow, the emitted cells grow by the result, and once the base
    /// is no longer pulled each call emits the innermost open parent.
    open spec fn next_rel(before: Self, r: Option<HeapCellValue>, after: Self) -> bool {
        &&& before.faithful() ==> after.faithful()
        &&& before.tracks() ==> after.tracks()
        &&& before.history().len() <= after.history().len()
        &&& after.history().subrange(0, before.history().len() as int) == before.history()
        &&& before.pulled().len() <= after.pulled().len()
        &&& after.pulled().subrange(0, before.pulled().len() as int) == before.pulled()
        &&& match r {
            Some(c) => after.emitted() == before.emitted().push((c, after.focus_loc())),
            None => after.emitted() == before.emitted() && after.exhausted(),
        }
        &&& !before.base_valid() ==> {
            &&& !after.base_valid()
            &&& after.base_view() == before.base_view()
            &&& after.history() == before.history()
            &&& after.pulled() == before.pulled()
            &&& before.frames().len() > 0 ==> {
                &&& r == Some(before.frames().last().1)
                &&& after.frames() == before.frames().drop_last()
                &&& after.focus_loc() == before.frames().last().2
            }
            &&& before.frames().len() == 0 ==> r is None && after.frames().len() == 0
        }
    }

    /// The next cell in post-order: a compound cell comes once as many
    /// subterms as it has children have been emitted.
    fn next(&mut self) -> (r: Option<HeapCellValue>)
    {
        proof {
            assert(self.pulled@.subrange(0, self.pulled@.len() as int) =~= self.pulled@);
            assert(self.history@.subrange(0, self.history@.len() as int) =~= self.history@);
        }
        loop
            invariant
                self.wf(),
                old(self).faithful() ==> self.faithful(),
                old(self).history@.len() <= self.history@.len(),
                self.history@.subrange(0, old(self).history@.len() as int) == old(self).history@,
                !old(self).base_iter_valid ==> {
                    &&& !self.base_iter_valid
                    &&& self.base_iter == old(self).base_iter
                    &&& self.history@ == old(self).history@
                    &&& self.pulled@ == old(self).pulled@
                    &&& self.ended@ == old(self).ended@
                    &&& self.pull_budget == old(self).pull_budget
                    &&& self.parent_stack@.len() == old(self).parent_stack@.len()
                    &&& old(self).parent_stack@.len() > 0 ==> {
                        &&& self.parent_stack@.drop_last() == old(self).parent_stack@.drop_last()
                        &&& self.parent_stack@.last().1 == old(self).parent_stack@.last().1
                        &&& self.parent_stack@.last().2 == old(self).parent_stack@.last().2
                    }
                },
                self.base_iter.start_state() == old(self).base_iter.start_state(),
                old(self).tracks() ==> self.tracks(),
                self.emitted@ == old(self).emitted@,
                old(self).pulled@.len() <= self.pulled@.len(),
                self.pulled@.subrange(0, old(self).pulled@.len() as int) == old(self).pulled@,
            decreases (if self.base_iter_valid { 1nat } else { 0nat }), self.pull_budget as nat, frames_weight(self.parent_stack@),
        {
            let ghost f0 = self.parent_stack@;
            let ghost p0 = self.pulled@;
            let ghost t0 = self.tracks();
            let ghost fa0 = self.faithful();
            let ghost h0 = self.history@;
            match self.parent_stack.pop() {
                Some(frame) => {
                    let (child_count, node, focus) = frame;
                    if child_count == 0 {
                        self.focus = focus;
                        proof {
                            self.emitted@ = self.emitted@.push((node, focus));
                            if t0 {
                                if self.base_iter_valid {
                                    assert forall|fut: Seq<(HeapCellValue, IterStackLoc)>|
                                        #[trigger] post_order(self.pulled@ + fut) == self.emitted@ + emits(self.parent_stack@, fut) by {
                                        assert(post_order(p0 + fut) == old(self).emitted@ + emits(f0, fut));
                                        assert(f0.drop_last() =~= self.parent_stack@);
                                        assert(old(self).emitted@ + emits(f0, fut) =~= self.emitted@ + emits(self.parent_stack@, fut));
                                    }
                                } else {
                                    assert(f0.drop_last() =~= self.parent_stack@);
                                    assert(old(self).emitted@ + emits(f0, seq![]) =~= self.emitted@ + emits(self.parent_stack@, seq![]));
                                }
                            }
                        }
                        return Some(node);
                    }
                    self.parent_stack.push((child_count - 1, node, focus));
                    proof {
                        assert(self.parent_stack@ =~= consume_child(f0));
                        assert(consume_child(f0).drop_last() =~= f0.drop_last());
                    }
                },
                None => {
                    proof {
                        assert(self.parent_stack@ =~= consume_child(f0));
                    }
                },
            }
            if self.base_iter_valid {
                if self.pull_budget == 0 {
                    self.base_iter_valid = false;
                    proof {
                        if t0 {
                            assert(p0 + seq![] =~= p0);
                            assert(post_order(p0 + seq![]) == self.emitted@ + emits(f0, seq![]));
                            if f0.len() > 0 {
                                lemma_emits_drain(f0);
                            }
                        }
                    }
                } else {
                    self.pull_budget = self.pull_budget - 1;
                    let ghost b0 = self.base_iter;
                    match self.base_iter.next() {
                        Some(item) => {
                            let focus = self.base_iter.focus();
                            let ghost x = (item, focus);
                            proof {
                                self.pulled@ = self.pulled@.push(x);
                                self.history@ = self.history@.push(self.base_iter);
                                assert(self.pulled@.subrange(0, old(self).pulled@.len() as int) =~= p0.subrange(0, old(self).pulled@.len() as int));
                                assert(self.history@.subrange(0, old(self).history@.len() as int) =~= h0.subrange(0, old(self).history@.len() as int));
                                if fa0 {
                                    let n = p0.len() as int;
                                    assert(h0.len() == n + 1);
                                    assert forall|k: int|
                                        0 <= k < n + 1 implies Iter::next_rel(self.history@[k], Some((#[trigger] self.pulled@[k]).0), self.history@[k + 1])
                                            && self.pulled@[k].1 == self.history@[k + 1].current_focus() by {
                                        if k < n {
                                            assert(self.pulled@[k] == p0[k]);
                                            assert(self.history@[k] == h0[k]);
                                            assert(self.history@[k + 1] == h0[k + 1]);
                                        }
                                    }
                                }
                            }
                            let leaf: bool;
                            match item.value {
                                CellValue::Atom(_name, arity) => {
                                    self.parent_stack.push((arity, item, focus));
                                    leaf = false;
                                },
                                CellValue::Lis(_) => {
                                    self.parent_stack.push((2, item, focus));
                                    leaf = false;
                                },
                                CellValue::PStr(_) | CellValue::PStrOffset(_) => {
                                    self.parent_stack.push((1, item, focus));
                                    leaf = false;
                                },
                                _ => {
                                    self.focus = focus;
                                    proof {
                                        self.emitted@ = self.emitted@.push(x);
                                    }
                                    leaf = true;
                                },
                            }
                            proof {
                                if t0 {
                                    assert forall|fut: Seq<(HeapCellValue, IterStackLoc)>|
                                        #[trigger] post_order(self.pulled@ + fut) == self.emitted@ + emits(self.parent_stack@, fut) by {
                                        lemma_emits_pull(f0, x, fut);
                                        assert(self.pulled@ + fut =~= p0 + (seq![x] + fut));
                                        assert(post_order(p0 + (seq![x] + fut)) == old(self).emitted@ + emits(f0, seq![x] + fut));
                                        if leaf {
                                            assert(old(self).emitted@ + (seq![x] + emits(consume_child(f0), fut)) =~= self.emitted@ + emits(self.parent_stack@, fut));
                                        }
                                    }
                                }
                            }
                            if leaf {
                                return Some(item);
                            }
                            continue;
                        },
                        None => {
                            self.base_iter_valid = false;
                            proof {
                                self.ended@ = true;
                                self.history@ = self.history@.push(self.base_iter);
                                assert(self.history@.subrange(0, old(self).history@.len() as int) =~= h0.subrange(0, old(self).history@.len() as int));
                                if fa0 {
                                    let n = p0.len() as int;
                                    assert(h0.len() == n + 1);
                                    assert(self.history@[n] == b0);
                                    assert forall|k: int|
                                        0 <= k < n implies Iter::next_rel(self.history@[k], Some((#[trigger] self.pulled@[k]).0), self.history@[k + 1])
                                            && self.pulled@[k].1 == self.history@[k + 1].current_focus() by {
                                        assert(self.history@[k] == h0[k]);
                                        assert(self.history@[k + 1] == h0[k + 1]);
                                    }
                                }
                                if t0 {
                                    assert(p0 + seq![] =~= p0);
                                    assert(post_order(p0 + seq![]) == self.emitted@ + emits(f0, seq![]));
                                    if f0.len() > 0 {
                                        lemma_emits_drain(f0);
                                    }
                                }
                            }
                        },
                    }
                }
            } else {
                proof {
                    if t0 && f0.len() > 0 {
                        lemma_emits_drain(f0);
                    }
                }
            }
            if self.parent_stack.len() == 0 {
                return None;
            }
        }
    }

    fn focus(&self) -> (r: IterStackLoc) {
        self.focus
    }
}

impl PostOrderIterator<StackfulPreOrderHeapIter> {
    /// Drops the innermost open parent together with the entries of its
    /// remaining children from the base's work list: the rest of that
    /// subterm is skipped.
    pub fn pop_stack(&mut self)
        requires
            old(self).wf(),
        ensures
            final(self).wf(),
            final(self).frames() == (if old(self).frames().len() > 0 {
                old(self).frames().drop_last()
            } else {
                old(self).frames()
            }),
            final(self).base_valid() == old(self).base_valid(),
            final(self).focus_loc() == old(self).focus_loc(),
            final(self).base_view().start_state() == old(self).base_view().start_state(),
            old(self).frames().len() > 0 ==> final(self).base_view().walk() == force_pops(
                old(self).base_view().walk(),
                old(self).frames().last().0 as nat,
            ),
            old(self).frames().len() == 0 ==> final(self).base_view() == old(self).base_view(),
    {
        let n: usize = self.parent_stack.len();
        if n > 0 {
            let child_count: usize = self.parent_stack[n - 1].0;
            let mut k: usize = 0;
            while k < child_count
                invariant
                    self.wf(),
                    self.parent_stack@ == old(self).parent_stack@,
                    self.base_iter_valid == old(self).base_iter_valid,
                    self.focus == old(self).focus,
                    self.base_iter.start_state() == old(self).base_iter.start_state(),
                    self.base_iter.walk() == force_pops(old(self).base_iter.walk(), k as nat),
                    k <= child_count,
                decreases child_count - k,
            {
                let ghost w0 = self.base_iter.walk();
                let popped = self.base_iter.pop_stack();
                proof {
                    let fuel = choose|fuel: nat| run_force_pop(w0, fuel) == Some((popped, self.base_iter.walk()));
                    lemma_force_pop_once(w0, fuel, popped, self.base_iter.walk());
                }
                k = k + 1;
            }
            self.parent_stack.pop();
        }
    }

    /// The number of open parents.
    pub fn parent_stack_len(&self) -> (r: usize)
        ensures
            r == self.frames().len(),
    {
        self.parent_stack.len()
    }
}

/// The post-order adapter over the stackful pre-order iterator.
pub type LeftistPostOrderHeapIter = PostOrderIterator<StackfulPreOrderHeapIter>;

/// Starts a post-order traversal of `cell` over `heap` and `machine_stack`.
pub fn stackful_post_order_iter(
    heap: Vec<HeapCellValue>,
    machine_stack: Vec<HeapCellValue>,
    cell: HeapCellValue,
) -> (r: LeftistPostOrderHeapIter)
    requires
        heap@.len() + 1 < LOC_INDEX_BOUND,
        machine_stack@.len() < LOC_INDEX_BOUND,
        all_clean(heap@.push(cell)),
        all_clean(machine_stack@),
        heap_wf(heap@.push(cell), machine_stack@),
    ensures
        r.wf(),
        r.tracks(),
        r.start_state() == (heap@.push(cell), machine_stack@),
        r.base_view().heap_seq() == heap@.push(cell),
        r.base_view().stack_seq() == machine_stack@,
        r.base_view().walk() == (Walk {
            heap: heap@.push(cell),
            stack: machine_stack@,
            work: seq![entry(IterStackLocTag::Iterable, HeapOrStackTag::Heap, heap@.len())],
            focus: entry(IterStackLocTag::Iterable, HeapOrStackTag::Heap, heap@.len()),
        }),
        r.focus_loc().index() == 0,
        r.focus_loc().tag() == IterStackLocTag::Iterable,
        r.focus_loc().origin() == HeapOrStackTag::Heap,
        r.faithful(),
        r.history() == seq![r.base_view()],
        r.pulled().len() == 0,
        r.emitted().len() == 0,
        r.frames().len() == 0,
        r.base_valid(),
{
    PostOrderIterator::new(StackfulPreOrderHeapIter::new(heap, machine_stack, cell))
}

} // verus!
