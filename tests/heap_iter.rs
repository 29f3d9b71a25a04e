use wam_heap_iter::{
    stackful_post_order_iter, stackful_preorder_iter, FocusedHeapIter, HeapCellValue,
    StackfulPreOrderHeapIter,
};

const F: u64 = 1;
const A: u64 = 2;
const B: u64 = 3;
const G: u64 = 4;
const Y: u64 = 5;
const EQ: u64 = 6;
const X: u64 = 7;
const ABC: u64 = 8;
const DEF: u64 = 9;
const A_STRING: u64 = 10;

type Cell = HeapCellValue;

fn str_loc(h: usize) -> Cell {
    HeapCellValue::str_loc(h)
}

fn heap_loc(h: usize) -> Cell {
    HeapCellValue::heap_loc(h)
}

fn list_loc(h: usize) -> Cell {
    HeapCellValue::list_loc(h)
}

fn pstr_loc(h: usize) -> Cell {
    HeapCellValue::pstr_loc(h)
}

fn pstr_offset(h: usize) -> Cell {
    HeapCellValue::pstr_offset(h)
}

fn atom(name: u64) -> Cell {
    HeapCellValue::atom(name, 0)
}

fn functor(name: u64, arity: usize) -> Cell {
    HeapCellValue::atom(name, arity)
}

fn fixnum(n: i64) -> Cell {
    HeapCellValue::fixnum(n)
}

fn empty_list() -> Cell {
    HeapCellValue::empty_list()
}

fn bits(mut c: Cell, mark: bool, forwarding: bool) -> Cell {
    c.set_mark_bit(mark);
    c.set_forwarding_bit(forwarding);
    c
}

/// Writes a partial-string segment followed by a fresh variable as its
/// tail; returns a reference to the segment.
fn put_partial_string(heap: &mut Vec<Cell>, name: u64) -> Cell {
    let h = heap.len();
    heap.push(HeapCellValue::pstr(name));
    heap.push(heap_loc(h + 1));
    pstr_loc(h)
}

fn all_cells_unmarked(heap: &Vec<Cell>) {
    for c in heap.iter() {
        assert!(!c.get_mark_bit());
        assert!(!c.get_forwarding_bit());
    }
}

fn next_clean<I: FocusedHeapIter>(iter: &mut I) -> Cell {
    iter.next().unwrap().unmarked()
}

#[test]
fn heap_stackful_iter_tests() {
    let mut heap: Vec<Cell> = vec![functor(F, 2), atom(A), atom(B)];
    let mut stack: Vec<Cell> = Vec::new();

    {
        let mut iter = StackfulPreOrderHeapIter::new(heap, stack, str_loc(0));

        assert_eq!(next_clean(&mut iter), functor(F, 2));
        assert_eq!(next_clean(&mut iter), atom(A));
        assert_eq!(next_clean(&mut iter), atom(B));

        assert_eq!(iter.next(), None);
        (heap, stack) = iter.finish();
    }

    heap.clear();

    heap.extend(vec![functor(F, 4), atom(A), atom(B), atom(A), str_loc(0)]);

    for _ in 0..20 {
        let mut iter = StackfulPreOrderHeapIter::new(heap, stack, str_loc(0));

        assert_eq!(next_clean(&mut iter), functor(F, 4));
        assert_eq!(next_clean(&mut iter), atom(A));
        assert_eq!(next_clean(&mut iter), atom(B));
        assert_eq!(next_clean(&mut iter), atom(A));

        assert_eq!(next_clean(&mut iter), str_loc(0));
        assert_eq!(iter.next(), None);
        (heap, stack) = iter.finish();
    }

    heap.clear();

    {
        heap.push(heap_loc(0));

        let mut iter = StackfulPreOrderHeapIter::new(heap, stack, heap_loc(0));

        // self-referencing variables are copied with their forwarding
        // and marking bits set to true.
        let var = bits(heap_loc(0), true, true);

        assert_eq!(iter.next().unwrap(), var);
        assert_eq!(iter.next(), None);
        (heap, stack) = iter.finish();
    }

    heap.clear();

    {
        // mutually referencing variables.
        heap.push(heap_loc(1));
        heap.push(heap_loc(0));

        let mut iter = StackfulPreOrderHeapIter::new(heap, stack, heap_loc(0));

        assert_eq!(next_clean(&mut iter), heap_loc(0));

        assert_eq!(iter.next(), None);
        (heap, stack) = iter.finish();
    }

    heap.clear();

    // term is: [a, b]
    heap.push(list_loc(1));
    heap.push(atom(A));
    heap.push(list_loc(3));
    heap.push(atom(B));
    heap.push(empty_list());

    {
        let mut iter = StackfulPreOrderHeapIter::new(heap, stack, heap_loc(0));

        assert_eq!(next_clean(&mut iter), list_loc(1));
        assert_eq!(next_clean(&mut iter), atom(A));
        assert_eq!(next_clean(&mut iter), list_loc(3));
        assert_eq!(next_clean(&mut iter), atom(B));
        assert_eq!(next_clean(&mut iter), empty_list());

        assert_eq!(iter.next(), None);
        (heap, stack) = iter.finish();
    }

    heap.pop();

    // now make the list cyclic.
    heap.push(heap_loc(0));

    {
        let mut iter = StackfulPreOrderHeapIter::new(heap, stack, heap_loc(0));

        assert_eq!(next_clean(&mut iter), list_loc(1));
        assert_eq!(next_clean(&mut iter), atom(A));
        assert_eq!(next_clean(&mut iter), list_loc(3));
        assert_eq!(next_clean(&mut iter), atom(B));
        assert_eq!(next_clean(&mut iter), heap_loc(0));

        assert_eq!(iter.next(), None);
        (heap, stack) = iter.finish();
    }

    {
        let mut iter = StackfulPreOrderHeapIter::new(heap, stack, heap_loc(0));

        // cut the iteration short: finishing clears every bit.
        assert_eq!(next_clean(&mut iter), list_loc(1));
        assert_eq!(next_clean(&mut iter), atom(A));
        (heap, stack) = iter.finish();
    }

    all_cells_unmarked(&heap);

    assert_eq!(heap[0], list_loc(1));
    assert_eq!(heap[1], atom(A));
    assert_eq!(heap[2], list_loc(3));
    assert_eq!(heap[3], atom(B));
    assert_eq!(heap[4], heap_loc(0));

    heap.clear();

    // first a 'dangling' partial string, later modified to be a two-part
    // complete string, then one ending in a view into the first.
    let pstr_var_cell = put_partial_string(&mut heap, ABC);
    let pstr_cell = heap[match pstr_var_cell.value {
        wam_heap_iter::CellValue::PStrLoc(h) => h,
        _ => unreachable!(),
    }];

    {
        let mut iter = StackfulPreOrderHeapIter::new(heap, stack, heap_loc(0));

        assert_eq!(next_clean(&mut iter), pstr_cell);
        assert_eq!(next_clean(&mut iter), heap_loc(1));

        assert_eq!(iter.next(), None);
        (heap, stack) = iter.finish();
    }

    heap.pop();
    heap.push(heap_loc(2));

    let pstr_second_var_cell = put_partial_string(&mut heap, DEF);
    let pstr_second_cell = heap[match pstr_second_var_cell.value {
        wam_heap_iter::CellValue::PStrLoc(h) => h,
        _ => unreachable!(),
    }];

    {
        let mut iter = stackful_preorder_iter(heap, stack, heap_loc(0));

        assert_eq!(next_clean(&mut iter), pstr_cell);
        assert_eq!(next_clean(&mut iter), pstr_second_cell);
        assert_eq!(next_clean(&mut iter), heap_loc(3));

        assert_eq!(iter.next(), None);
        (heap, stack) = iter.finish();
    }

    heap.pop();
    let n = heap.len();
    heap.push(pstr_loc(n + 1));

    heap.push(pstr_offset(0));
    heap.push(fixnum(0));

    {
        let mut iter = stackful_preorder_iter(heap, stack, pstr_loc(0));

        assert_eq!(next_clean(&mut iter), pstr_cell);
        assert_eq!(next_clean(&mut iter), pstr_second_cell);
        assert_eq!(next_clean(&mut iter), pstr_offset(0));
        assert_eq!(iter.next().unwrap(), fixnum(0));

        assert_eq!(iter.next(), None);
        (heap, stack) = iter.finish();
    }

    heap.pop();
    heap.push(fixnum(1));

    {
        let mut iter = stackful_preorder_iter(heap, stack, pstr_loc(0));

        assert_eq!(next_clean(&mut iter), pstr_cell);
        assert_eq!(next_clean(&mut iter), pstr_second_cell);

        assert_eq!(next_clean(&mut iter), pstr_offset(0));
        assert_eq!(iter.next().unwrap(), fixnum(1));

        let h = iter.focus();

        assert_eq!(h.value(), 5);
        assert_eq!(iter.heap()[4].unmarked(), pstr_offset(0));
        assert_eq!(iter.heap()[5].unmarked(), fixnum(1));

        assert_eq!(iter.next(), None);
        (heap, stack) = iter.finish();
    }

    heap.clear();

    heap.push(list_loc(1));
    heap.push(str_loc(5));
    heap.push(list_loc(3));
    heap.push(str_loc(5));
    heap.push(empty_list());

    heap.extend(vec![functor(F, 3), atom(A), atom(B), atom(B)]);

    {
        let mut iter = StackfulPreOrderHeapIter::new(heap, stack, heap_loc(0));

        assert_eq!(next_clean(&mut iter), list_loc(1));

        assert_eq!(next_clean(&mut iter), functor(F, 3));
        assert_eq!(next_clean(&mut iter), atom(A));
        assert_eq!(next_clean(&mut iter), atom(B));
        assert_eq!(next_clean(&mut iter), atom(B));

        assert_eq!(next_clean(&mut iter), list_loc(3));

        assert_eq!(next_clean(&mut iter), functor(F, 3));
        assert_eq!(next_clean(&mut iter), atom(A));
        assert_eq!(next_clean(&mut iter), atom(B));
        assert_eq!(next_clean(&mut iter), atom(B));

        assert_eq!(next_clean(&mut iter), empty_list());

        assert_eq!(iter.next(), None);
        (heap, stack) = iter.finish();
    }

    all_cells_unmarked(&heap);

    heap[4] = list_loc(1);

    {
        let mut iter = stackful_preorder_iter(heap, stack, heap_loc(0));

        assert_eq!(next_clean(&mut iter), list_loc(1));

        assert_eq!(next_clean(&mut iter), functor(F, 3));
        assert_eq!(next_clean(&mut iter), atom(A));
        assert_eq!(next_clean(&mut iter), atom(B));
        assert_eq!(next_clean(&mut iter), atom(B));

        assert_eq!(next_clean(&mut iter), list_loc(3));

        assert_eq!(next_clean(&mut iter), functor(F, 3));
        assert_eq!(next_clean(&mut iter), atom(A));
        assert_eq!(next_clean(&mut iter), atom(B));
        assert_eq!(next_clean(&mut iter), atom(B));

        let link_back = bits(list_loc(1), true, true);

        assert_eq!(iter.next().unwrap(), link_back);

        assert_eq!(iter.next(), None);
        (heap, stack) = iter.finish();
    }

    all_cells_unmarked(&heap);

    heap.clear();

    heap.push(list_loc(1));
    heap.push(list_loc(1));
    heap.push(list_loc(1));

    {
        let mut iter = StackfulPreOrderHeapIter::new(heap, stack, heap_loc(0));

        let cyclic_link = bits(list_loc(1), true, true);

        assert_eq!(next_clean(&mut iter), list_loc(1));
        assert_eq!(next_clean(&mut iter), list_loc(1));
        assert_eq!(iter.next().unwrap(), cyclic_link);

        assert_eq!(iter.next(), None);
        (heap, stack) = iter.finish();
    }

    all_cells_unmarked(&heap);

    heap.clear();

    heap.push(HeapCellValue::pstr(A_STRING));
    heap.push(empty_list());

    {
        let mut iter = stackful_preorder_iter(heap, stack, heap_loc(0));

        assert_eq!(next_clean(&mut iter), HeapCellValue::pstr(A_STRING));

        assert_eq!(iter.next().unwrap(), empty_list());

        assert_eq!(iter.next(), None);
        (heap, stack) = iter.finish();
    }

    all_cells_unmarked(&heap);

    heap.clear();

    heap.push(str_loc(1));
    heap.push(functor(G, 2));
    heap.push(heap_loc(0));
    heap.push(atom(Y));
    heap.push(functor(EQ, 2));
    heap.push(atom(X));
    heap.push(heap_loc(0));
    heap.push(list_loc(8));
    heap.push(str_loc(4));
    heap.push(empty_list());

    {
        let mut iter = stackful_preorder_iter(heap, stack, heap_loc(0));

        assert_eq!(next_clean(&mut iter), functor(G, 2));
        assert_eq!(next_clean(&mut iter), heap_loc(0));
        assert_eq!(next_clean(&mut iter), atom(Y));

        assert!(iter.next().is_none());
        (heap, stack) = iter.finish();
    }

    all_cells_unmarked(&heap);
    assert!(stack.is_empty());
}

#[test]
fn heap_stackful_post_order_iter() {
    let mut heap: Vec<Cell> = vec![functor(F, 2), atom(A), atom(B)];
    let mut stack: Vec<Cell> = Vec::new();

    {
        let mut iter = stackful_post_order_iter(heap, stack, str_loc(0));

        assert_eq!(next_clean(&mut iter), atom(A));
        assert_eq!(next_clean(&mut iter), atom(B));
        assert_eq!(next_clean(&mut iter), functor(F, 2));

        assert_eq!(iter.next(), None);
        (heap, stack) = iter.into_base().finish();
    }

    heap.clear();

    heap.extend(vec![functor(F, 4), atom(A), atom(B), atom(A), str_loc(0)]);

    for _ in 0..20 {
        let mut iter = stackful_post_order_iter(heap, stack, str_loc(0));

        assert_eq!(next_clean(&mut iter), atom(A));
        assert_eq!(next_clean(&mut iter), atom(B));
        assert_eq!(next_clean(&mut iter), atom(A));

        assert_eq!(next_clean(&mut iter), str_loc(0));

        assert_eq!(next_clean(&mut iter), functor(F, 4));

        assert_eq!(iter.next(), None);
        (heap, stack) = iter.into_base().finish();
    }

    heap.clear();

    {
        heap.push(heap_loc(0));

        let mut iter = stackful_post_order_iter(heap, stack, heap_loc(0));

        let var = bits(heap_loc(0), true, true);

        assert_eq!(iter.next().unwrap(), var);
        assert_eq!(iter.next(), None);
        (heap, stack) = iter.into_base().finish();
    }

    heap.clear();

    {
        // mutually referencing variables.
        heap.push(heap_loc(1));
        heap.push(heap_loc(0));

        let mut iter = stackful_post_order_iter(heap, stack, heap_loc(0));

        assert_eq!(next_clean(&mut iter), heap_loc(0));

        assert_eq!(iter.next(), None);
        (heap, stack) = iter.into_base().finish();
    }

    heap.clear();

    // term is: [a, b]
    heap.push(list_loc(1));
    heap.push(atom(A));
    heap.push(list_loc(3));
    heap.push(atom(B));
    heap.push(empty_list());

    {
        let mut iter = stackful_post_order_iter(heap, stack, heap_loc(0));

        assert_eq!(next_clean(&mut iter), atom(A));
        assert_eq!(next_clean(&mut iter), atom(B));
        assert_eq!(next_clean(&mut iter), empty_list());
        assert_eq!(next_clean(&mut iter), list_loc(3));
        assert_eq!(next_clean(&mut iter), list_loc(1));

        assert_eq!(iter.next(), None);
        (heap, stack) = iter.into_base().finish();
    }

    heap.pop();

    // now make the list cyclic.
    heap.push(heap_loc(0));

    {
        let mut iter = stackful_post_order_iter(heap, stack, heap_loc(0));

        assert_eq!(next_clean(&mut iter), atom(A));
        assert_eq!(next_clean(&mut iter), atom(B));
        assert_eq!(next_clean(&mut iter), heap_loc(0));
        assert_eq!(next_clean(&mut iter), list_loc(3));
        assert_eq!(next_clean(&mut iter), list_loc(1));

        assert_eq!(iter.next(), None);
        (heap, stack) = iter.into_base().finish();
    }

    {
        let mut iter = stackful_post_order_iter(heap, stack, heap_loc(0));

        // cut the iteration short: finishing clears every bit.
        assert_eq!(next_clean(&mut iter), atom(A));
        assert_eq!(next_clean(&mut iter), atom(B));
        (heap, stack) = iter.into_base().finish();
    }

    all_cells_unmarked(&heap);

    assert_eq!(heap[0], list_loc(1));
    assert_eq!(heap[1], atom(A));
    assert_eq!(heap[2], list_loc(3));
    assert_eq!(heap[3], atom(B));
    assert_eq!(heap[4], heap_loc(0));

    heap.clear();

    let pstr_var_cell = put_partial_string(&mut heap, ABC);
    let pstr_cell = heap[match pstr_var_cell.value {
        wam_heap_iter::CellValue::PStrLoc(h) => h,
        _ => unreachable!(),
    }];

    {
        let mut iter = stackful_post_order_iter(heap, stack, pstr_loc(0));

        assert_eq!(next_clean(&mut iter), heap_loc(1));

        assert_eq!(next_clean(&mut iter), pstr_cell);

        assert_eq!(iter.next(), None);
        (heap, stack) = iter.into_base().finish();
    }

    heap.pop();
    heap.push(pstr_loc(2));

    let pstr_second_var_cell = put_partial_string(&mut heap, DEF);
    let pstr_second_cell = heap[match pstr_second_var_cell.value {
        wam_heap_iter::CellValue::PStrLoc(h) => h,
        _ => unreachable!(),
    }];

    {
        let mut iter = stackful_post_order_iter(heap, stack, pstr_loc(0));

        assert_eq!(next_clean(&mut iter), heap_loc(3));
        assert_eq!(next_clean(&mut iter), pstr_second_cell);
        assert_eq!(next_clean(&mut iter), pstr_cell);

        assert_eq!(iter.next(), None);
        (heap, stack) = iter.into_base().finish();
    }

    heap.pop();
    let n = heap.len();
    heap.push(pstr_loc(n + 1));

    heap.push(pstr_offset(0));
    heap.push(fixnum(0));

    {
        let mut iter = stackful_post_order_iter(heap, stack, pstr_loc(0));

        assert_eq!(iter.next().unwrap(), fixnum(0));
        assert_eq!(next_clean(&mut iter), pstr_offset(0));

        assert_eq!(next_clean(&mut iter), pstr_second_cell);
        assert_eq!(next_clean(&mut iter), pstr_cell);

        assert_eq!(iter.next(), None);
        (heap, stack) = iter.into_base().finish();
    }

    heap.pop();
    heap.push(fixnum(1));

    {
        let mut iter = stackful_post_order_iter(heap, stack, pstr_loc(0));

        assert_eq!(iter.next().unwrap(), fixnum(1));
        assert_eq!(next_clean(&mut iter), pstr_offset(0));

        assert_eq!(next_clean(&mut iter), pstr_second_cell);
        assert_eq!(next_clean(&mut iter), pstr_cell);

        assert_eq!(iter.next(), None);
        (heap, stack) = iter.into_base().finish();
    }

    heap.clear();

    heap.push(list_loc(1));
    heap.push(str_loc(5));
    heap.push(list_loc(3));
    heap.push(str_loc(5));
    heap.push(empty_list());

    heap.extend(vec![functor(F, 3), atom(A), atom(B), atom(B)]);

    {
        let mut iter = stackful_post_order_iter(heap, stack, heap_loc(0));

        assert_eq!(next_clean(&mut iter), atom(A));
        assert_eq!(next_clean(&mut iter), atom(B));
        assert_eq!(next_clean(&mut iter), atom(B));

        assert_eq!(next_clean(&mut iter), functor(F, 3));

        assert_eq!(next_clean(&mut iter), atom(A));
        assert_eq!(next_clean(&mut iter), atom(B));
        assert_eq!(next_clean(&mut iter), atom(B));
        assert_eq!(next_clean(&mut iter), functor(F, 3));

        assert_eq!(next_clean(&mut iter), empty_list());

        assert_eq!(next_clean(&mut iter), list_loc(3));

        assert_eq!(next_clean(&mut iter), list_loc(1));

        assert_eq!(iter.next(), None);
        (heap, stack) = iter.into_base().finish();
    }

    all_cells_unmarked(&heap);

    heap[4] = list_loc(1);

    {
        let mut iter = stackful_post_order_iter(heap, stack, heap_loc(0));

        assert_eq!(next_clean(&mut iter), atom(A));
        assert_eq!(next_clean(&mut iter), atom(B));
        assert_eq!(next_clean(&mut iter), atom(B));

        assert_eq!(next_clean(&mut iter), functor(F, 3));

        assert_eq!(next_clean(&mut iter), atom(A));
        assert_eq!(next_clean(&mut iter), atom(B));
        assert_eq!(next_clean(&mut iter), atom(B));

        assert_eq!(next_clean(&mut iter), functor(F, 3));

        let link_back = bits(list_loc(1), true, true);

        assert_eq!(iter.next().unwrap(), link_back);

        assert_eq!(next_clean(&mut iter), list_loc(3));

        assert_eq!(next_clean(&mut iter), list_loc(1));

        assert_eq!(iter.next(), None);
        (heap, stack) = iter.into_base().finish();
    }

    all_cells_unmarked(&heap);
    heap.clear();
}
