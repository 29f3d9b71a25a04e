//! Well-formedness of a heap and machine stack, and counting marked cells.
use vstd::prelude::*;
use crate::cell::{is_chained, is_clean, CellValue, HeapCellValue};

verus! {

/// `c`, standing at index `i` of its array, refers only to cells that exist,
/// and a structure or partial-string location does not refer to a variable
/// or to another such location, so that each step of a traversal along
/// references either marks a new cell or reaches a cell that is yielded.
/// Headers that follow their cell (an argument, a tail, an offset) are read
/// from the heap, whichever array `c` stands in.
pub open spec fn cell_wf(c: CellValue, i: nat, heap: Seq<HeapCellValue>, stack_len: nat) -> bool {
    let hl = heap.len();
    match c {
        CellValue::Str(h) => h < hl && !is_chained(heap[h as int].value),
        CellValue::PStrLoc(h) => h < hl && !is_chained(heap[h as int].value),
        CellValue::Lis(h) => h + 1 < hl,
        CellValue::Var(h) => h < hl,
        CellValue::AttrVar(h) => h < hl,
        CellValue::StackVar(s) => s < stack_len,
        CellValue::PStrOffset(h) => h < hl && i + 1 < hl,
        CellValue::PStr(_) => i + 1 < hl,
        CellValue::Atom(_, n) => i + n < hl,
        _ => true,
    }
}

/// Every cell of the heap and of the machine stack is well formed.
pub open spec fn heap_wf(heap: Seq<HeapCellValue>, stack: Seq<HeapCellValue>) -> bool {
    &&& forall|i: int| 0 <= i < heap.len() ==> #[trigger] cell_wf(heap[i].value, i as nat, heap, stack.len())
    &&& forall|i: int| 0 <= i < stack.len() ==> #[trigger] cell_wf(stack[i].value, i as nat, heap, stack.len())
}

/// No cell of `s` has a traversal bit set.
pub open spec fn all_clean(s: Seq<HeapCellValue>) -> bool {
    forall|i: int| 0 <= i < s.len() ==> #[trigger] is_clean(s[i])
}

/// How many cells of `s` have their mark bit set.
pub open spec fn marked_count(s: Seq<HeapCellValue>) -> nat
    decreases s.len(),
{
    if s.len() == 0 {
        0
    } else {
        marked_count(s.drop_last()) + if s.last().mark { 1nat } else { 0nat }
    }
}

/// At most every cell is marked.
pub proof fn lemma_marked_count_bound(s: Seq<HeapCellValue>)
    ensures
        marked_count(s) <= s.len(),
    decreases s.len(),
{
    if s.len() > 0 {
        lemma_marked_count_bound(s.drop_last());
    }
}

/// Replacing one cell changes the count by the difference of the two marks.
pub proof fn lemma_marked_count_update(s: Seq<HeapCellValue>, i: int, c: HeapCellValue)
    requires
        0 <= i < s.len(),
    ensures
        marked_count(s.update(i, c)) + (if s[i].mark { 1int } else { 0int })
            == marked_count(s) + (if c.mark { 1int } else { 0int }),
    decreases s.len(),
{
    let t = s.update(i, c);
    if i == s.len() - 1 {
        assert(t.drop_last() =~= s.drop_last());
    } else {
        assert(t.drop_last() =~= s.drop_last().update(i, c));
        lemma_marked_count_update(s.drop_last(), i, c);
    }
}

} // verus!
