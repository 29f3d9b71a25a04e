use wam_heap_iter::{
    stackful_post_order_iter, CellValue, FocusedHeapIter, HeapCellValue, HeapOrStackTag,
    IterStackLoc, IterStackLocTag, Ref, StackfulPreOrderHeapIter,
};

type Cell = HeapCellValue;

const F: u64 = 1;
const A: u64 = 2;
const B: u64 = 3;

fn f_a_b() -> Vec<Cell> {
    vec![HeapCellValue::atom(F, 2), HeapCellValue::atom(A, 0), HeapCellValue::atom(B, 0)]
}

fn drain(iter: &mut StackfulPreOrderHeapIter, bound: usize) -> Vec<Cell> {
    let mut out = Vec::new();
    while let Some(c) = iter.next() {
        out.push(c);
        assert!(out.len() <= bound);
    }
    out
}

#[test]
fn loc_packing_keeps_fields() {
    let largest: usize = (1usize << 61) - 1;
    for &h in [0usize, 5, 1 << 40, largest].iter() {
        for &o in [HeapOrStackTag::Heap, HeapOrStackTag::Stack].iter() {
            let it = IterStackLoc::iterable_loc(h, o);
            let mk = IterStackLoc::mark_loc(h, o);
            let pm = IterStackLoc::pending_mark_loc(h, o);
            for (loc, tag) in [
                (it, IterStackLocTag::Iterable),
                (mk, IterStackLocTag::Marked),
                (pm, IterStackLocTag::PendingMark),
            ] {
                assert_eq!(loc.value(), h as u64);
                assert_eq!(loc.heap_or_stack(), o);
                assert_eq!(loc.get_tag(), tag);
                assert_eq!(loc.is_marked(), tag == IterStackLocTag::Marked);
                assert_eq!(loc.is_pending_mark(), tag == IterStackLocTag::PendingMark);
            }
            assert_ne!(it, mk);
            assert_ne!(mk, pm);
            assert_ne!(it, pm);
        }
    }
    assert_eq!(IterStackLoc::iterable_loc(7, HeapOrStackTag::Heap).as_ref(), Ref::HeapCell(7));
    assert_eq!(IterStackLoc::mark_loc(9, HeapOrStackTag::Stack).as_ref(), Ref::StackCell(9));
    assert_ne!(
        IterStackLoc::iterable_loc(3, HeapOrStackTag::Heap),
        IterStackLoc::iterable_loc(3, HeapOrStackTag::Stack)
    );
}

#[test]
fn cell_bits_leave_value_alone() {
    let mut c = HeapCellValue::list_loc(12);
    assert!(!c.get_mark_bit() && !c.get_forwarding_bit());
    c.set_mark_bit(true);
    assert!(c.get_mark_bit() && !c.get_forwarding_bit());
    c.set_forwarding_bit(true);
    assert!(c.get_mark_bit() && c.get_forwarding_bit());
    assert_eq!(c.value, CellValue::Lis(12));
    assert_eq!(c.unmarked(), HeapCellValue::list_loc(12));
    c.set_mark_bit(false);
    assert!(!c.get_mark_bit() && c.get_forwarding_bit());
}

#[test]
fn finish_restores_heap_and_stack_after_partial_walk() {
    // [a, b | L] with L the list itself, plus a stack variable bound to it.
    let heap: Vec<Cell> = vec![
        HeapCellValue::list_loc(1),
        HeapCellValue::atom(A, 0),
        HeapCellValue::list_loc(3),
        HeapCellValue::atom(B, 0),
        HeapCellValue::heap_loc(0),
    ];
    let stack: Vec<Cell> = vec![HeapCellValue::heap_loc(0), HeapCellValue::stack_loc(0)];
    for steps in 0..6 {
        let mut iter = StackfulPreOrderHeapIter::new(heap.clone(), stack.clone(), HeapCellValue::stack_loc(1));
        assert_eq!(iter.heap().len(), heap.len() + 1);
        for _ in 0..steps {
            let _ = iter.next();
        }
        let (h, s) = iter.finish();
        assert_eq!(h, heap);
        assert_eq!(s, stack);
    }
}

#[test]
fn walk_ends_on_cyclic_heaps() {
    // L = [L | L], and X = f(X, X).
    let heaps: Vec<(Vec<Cell>, Cell)> = vec![
        (vec![HeapCellValue::list_loc(1), HeapCellValue::list_loc(1), HeapCellValue::list_loc(1)], HeapCellValue::heap_loc(0)),
        (vec![HeapCellValue::atom(F, 2), HeapCellValue::str_loc(0), HeapCellValue::str_loc(0)], HeapCellValue::str_loc(0)),
    ];
    for (heap, root) in heaps {
        let mut iter = StackfulPreOrderHeapIter::new(heap.clone(), Vec::new(), root);
        let out = drain(&mut iter, 64);
        assert!(!out.is_empty());
        assert_eq!(iter.stack_len(), 0);
        assert_eq!(iter.next(), None);
        assert_eq!(iter.next(), None);
        let (h, _) = iter.finish();
        assert_eq!(h, heap);
    }
}

#[test]
fn forwarding_marks_only_back_edges() {
    let heap: Vec<Cell> = vec![
        HeapCellValue::atom(F, 4),
        HeapCellValue::atom(A, 0),
        HeapCellValue::atom(B, 0),
        HeapCellValue::atom(A, 0),
        HeapCellValue::str_loc(0),
    ];
    let mut iter = StackfulPreOrderHeapIter::new(heap, Vec::new(), HeapCellValue::str_loc(0));
    let out = drain(&mut iter, 16);
    assert_eq!(out.len(), 5);
    for c in &out[..4] {
        assert!(!c.get_forwarding_bit());
    }
    assert!(out[4].get_forwarding_bit());
    assert_eq!(out[4].value, CellValue::Str(0));
    iter.finish();

    // an acyclic list: no sentinel at all
    let heap: Vec<Cell> = vec![
        HeapCellValue::list_loc(1),
        HeapCellValue::atom(A, 0),
        HeapCellValue::list_loc(3),
        HeapCellValue::atom(B, 0),
        HeapCellValue::empty_list(),
    ];
    let mut iter = StackfulPreOrderHeapIter::new(heap, Vec::new(), HeapCellValue::heap_loc(0));
    let out = drain(&mut iter, 16);
    assert_eq!(out.len(), 5);
    assert!(out.iter().all(|c| !c.get_forwarding_bit()));
}

#[test]
fn shared_subterm_is_walked_twice() {
    // g(T, T) with T = f(a): sharing without a cycle gives no sentinel.
    let heap: Vec<Cell> = vec![
        HeapCellValue::atom(7, 2),
        HeapCellValue::str_loc(3),
        HeapCellValue::str_loc(3),
        HeapCellValue::atom(F, 1),
        HeapCellValue::atom(A, 0),
    ];
    let mut iter = StackfulPreOrderHeapIter::new(heap, Vec::new(), HeapCellValue::str_loc(0));
    let out: Vec<Cell> = drain(&mut iter, 16).iter().map(|c| c.unmarked()).collect();
    assert_eq!(
        out,
        vec![
            HeapCellValue::atom(7, 2),
            HeapCellValue::atom(F, 1),
            HeapCellValue::atom(A, 0),
            HeapCellValue::atom(F, 1),
            HeapCellValue::atom(A, 0),
        ]
    );
}

#[test]
fn stack_variables_are_followed() {
    let heap: Vec<Cell> = vec![HeapCellValue::atom(A, 0)];
    let stack: Vec<Cell> = vec![HeapCellValue::heap_loc(0)];
    let mut iter = StackfulPreOrderHeapIter::new(heap, stack, HeapCellValue::stack_loc(0));
    assert_eq!(iter.next().unwrap().unmarked(), HeapCellValue::atom(A, 0));
    assert_eq!(iter.focus().value(), 0);
    assert_eq!(iter.focus().heap_or_stack(), HeapOrStackTag::Heap);
    assert_eq!(iter.next(), None);
    let (_, s) = iter.finish();
    assert_eq!(s, vec![HeapCellValue::heap_loc(0)]);

    // a self-referencing stack variable is a cycle sentinel
    let stack: Vec<Cell> = vec![HeapCellValue::stack_loc(0)];
    let mut iter = StackfulPreOrderHeapIter::new(Vec::new(), stack, HeapCellValue::stack_loc(0));
    let mut expected = HeapCellValue::stack_loc(0);
    expected.set_mark_bit(true);
    expected.set_forwarding_bit(true);
    assert_eq!(iter.next().unwrap(), expected);
    assert_eq!(iter.focus().heap_or_stack(), HeapOrStackTag::Stack);
    assert_eq!(iter.next(), None);
    let (_, s) = iter.finish();
    assert_eq!(s, vec![HeapCellValue::stack_loc(0)]);
}

#[test]
fn attributed_variables_are_followed() {
    let heap: Vec<Cell> = vec![HeapCellValue::fixnum(-4)];
    let mut iter = StackfulPreOrderHeapIter::new(heap, Vec::new(), HeapCellValue::attr_var(0));
    assert_eq!(iter.next().unwrap().unmarked(), HeapCellValue::fixnum(-4));
    assert_eq!(iter.next(), None);
}

#[test]
fn focus_follows_each_yield() {
    let mut iter = StackfulPreOrderHeapIter::new(f_a_b(), Vec::new(), HeapCellValue::str_loc(0));
    let mut seen = Vec::new();
    while iter.next().is_some() {
        let h = iter.focus();
        assert!(!h.is_pending_mark());
        seen.push(h.value());
    }
    assert_eq!(seen, vec![0, 1, 2]);
}

#[test]
fn empty_heap_with_leaf_root() {
    let mut iter = StackfulPreOrderHeapIter::new(Vec::new(), Vec::new(), HeapCellValue::fixnum(9));
    assert_eq!(iter.next(), Some(HeapCellValue::fixnum(9)));
    assert_eq!(iter.focus().value(), 0);
    assert_eq!(iter.next(), None);
    let (h, s) = iter.finish();
    assert!(h.is_empty() && s.is_empty());
}

#[test]
fn peek_and_force_pop() {
    let heap: Vec<Cell> = vec![
        HeapCellValue::list_loc(1),
        HeapCellValue::atom(A, 0),
        HeapCellValue::list_loc(3),
        HeapCellValue::atom(B, 0),
        HeapCellValue::empty_list(),
    ];
    let mut iter = StackfulPreOrderHeapIter::new(heap.clone(), Vec::new(), HeapCellValue::heap_loc(0));
    assert_eq!(iter.stack_len(), 1);
    assert_eq!(iter.next().unwrap().unmarked(), HeapCellValue::list_loc(1));
    assert_eq!(iter.stack_len(), 4);

    let top = iter.stack_last().unwrap();
    assert!(top.is_marked());
    assert_eq!(top.value(), 1);
    assert_eq!(iter.stack_len(), 4);

    // skip the head of the list
    let head = iter.pop_stack().unwrap();
    assert_eq!(head.unmarked(), HeapCellValue::atom(A, 0));
    assert_eq!(iter.focus().value(), 1);
    assert_eq!(iter.stack_len(), 3);

    // the clearing entry of the head is passed over, the tail is next
    let top = iter.stack_last().unwrap();
    assert!(top.is_pending_mark());
    assert_eq!(top.value(), 2);

    assert_eq!(iter.next().unwrap().unmarked(), HeapCellValue::list_loc(3));
    assert_eq!(iter.next().unwrap().unmarked(), HeapCellValue::atom(B, 0));
    assert_eq!(iter.next().unwrap().unmarked(), HeapCellValue::empty_list());
    assert_eq!(iter.next(), None);
    assert_eq!(iter.stack_last(), None);
    assert_eq!(iter.pop_stack(), None);
    let (h, _) = iter.finish();
    assert_eq!(h, heap);
}

#[test]
fn pushed_entry_is_visited_first() {
    let mut iter = StackfulPreOrderHeapIter::new(f_a_b(), Vec::new(), HeapCellValue::str_loc(0));
    iter.push_stack(IterStackLoc::iterable_loc(2, HeapOrStackTag::Heap));
    assert_eq!(iter.stack_len(), 2);
    let out: Vec<Cell> = drain(&mut iter, 8).iter().map(|c| c.unmarked()).collect();
    assert_eq!(
        out,
        vec![
            HeapCellValue::atom(B, 0),
            HeapCellValue::atom(F, 2),
            HeapCellValue::atom(A, 0),
            HeapCellValue::atom(B, 0),
        ]
    );
    let (h, _) = iter.finish();
    assert_eq!(h, f_a_b());
}

#[test]
fn reading_cells_through_locations() {
    let mut iter = StackfulPreOrderHeapIter::new(f_a_b(), vec![HeapCellValue::fixnum(3)], HeapCellValue::str_loc(0));
    let loc = IterStackLoc::mark_loc(1, HeapOrStackTag::Heap);
    assert_eq!(iter.read_cell(loc), HeapCellValue::atom(A, 0));
    assert_eq!(iter.read_cell(IterStackLoc::iterable_loc(0, HeapOrStackTag::Stack)), HeapCellValue::fixnum(3));
    assert_eq!(iter.read_cell(IterStackLoc::iterable_loc(3, HeapOrStackTag::Heap)), HeapCellValue::str_loc(0));
    *iter.read_cell_mut(loc) = HeapCellValue::atom(B, 0);
    assert_eq!(iter.heap()[1], HeapCellValue::atom(B, 0));
    assert_eq!(iter.machine_stack()[0], HeapCellValue::fixnum(3));
    let out: Vec<Cell> = drain(&mut iter, 8).iter().map(|c| c.unmarked()).collect();
    assert_eq!(out[1], HeapCellValue::atom(B, 0));
}

#[test]
fn post_order_probes_and_skipping() {
    let mut iter = stackful_post_order_iter(f_a_b(), Vec::new(), HeapCellValue::str_loc(0));
    assert_eq!(iter.parent_stack_len(), 0);
    assert!(!iter.direct_subterm_of_str(1));

    assert_eq!(iter.next().unwrap().unmarked(), HeapCellValue::atom(A, 0));
    assert_eq!(iter.focus().value(), 1);
    assert_eq!(iter.parent_stack_len(), 1);
    assert!(!iter.direct_subterm_of_str(0));
    assert!(iter.direct_subterm_of_str(1));
    assert!(iter.direct_subterm_of_str(2));
    assert!(!iter.direct_subterm_of_str(3));
    assert_eq!(iter.base().stack_len(), 3);

    // skip the rest of f(a, b): the parent and its last child go
    iter.pop_stack();
    assert_eq!(iter.parent_stack_len(), 0);
    assert_eq!(iter.next(), None);
    let (h, _) = iter.into_base().finish();
    assert_eq!(h, f_a_b());
}

#[test]
fn post_order_of_nested_terms() {
    // f(g(a), b) with g at 3
    let heap: Vec<Cell> = vec![
        HeapCellValue::atom(F, 2),
        HeapCellValue::str_loc(3),
        HeapCellValue::atom(B, 0),
        HeapCellValue::atom(7, 1),
        HeapCellValue::atom(A, 0),
    ];
    let mut iter = stackful_post_order_iter(heap.clone(), Vec::new(), HeapCellValue::str_loc(0));
    let mut out = Vec::new();
    let mut foci = Vec::new();
    while let Some(c) = iter.next() {
        out.push(c.unmarked());
        foci.push(iter.focus().value());
    }
    assert_eq!(
        out,
        vec![
            HeapCellValue::atom(A, 0),
            HeapCellValue::atom(7, 1),
            HeapCellValue::atom(B, 0),
            HeapCellValue::atom(F, 2),
        ]
    );
    assert_eq!(foci, vec![4, 3, 2, 0]);
    assert_eq!(iter.next(), None);
    let (h, _) = iter.into_base().finish();
    assert_eq!(h, heap);
}
