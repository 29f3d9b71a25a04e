//! Work-list entries: a location (heap or machine stack, and an index) with
//! a traversal tag, packed into one 64-bit word.
use vstd::prelude::*;

verus! {

/// Which array a location indexes.
#[derive(Clone, Copy, Debug, PartialEq, Eq, Structural)]
pub enum HeapOrStackTag {
    Heap,
    Stack,
}

/// What the traversal does with an entry when it pops it.
#[derive(Clone, Copy, Debug, PartialEq, Eq, Structural)]
pub enum IterStackLocTag {
    /// Visit the cell if it is unmarked; clear its mark if it is marked.
    Iterable,
    /// Visit the cell, marked or not.
    Marked,
    /// Mark the cell and schedule its visit: a deferred argument.
    PendingMark,
}

/// A location as seen by downstream consumers.
#[derive(Clone, Copy, Debug, PartialEq, Eq, Structural)]
pub enum Ref {
    HeapCell(usize),
    StackCell(usize),
}

impl Ref {
    pub fn heap_cell(h: usize) -> (r: Ref)
        ensures
            r == Ref::HeapCell(h),
    {
        Ref::HeapCell(h)
    }

    pub fn stack_cell(s: usize) -> (r: Ref)
        ensures
            r == Ref::StackCell(s),
    {
        Ref::StackCell(s)
    }
}

/// The largest index a location can hold plus one: indices take 61 bits.
pub const LOC_INDEX_BOUND: u64 = 0x2000_0000_0000_0000;

const INDEX_MASK: u64 = 0x1fff_ffff_ffff_ffff;

/// A work-list entry. Bits 0..61 hold the index, bits 61..63 the tag
/// (0 iterable, 1 marked, 2 pending) and bit 63 the origin (1 for the stack).
#[derive(Clone, Copy, Debug, PartialEq, Eq, Structural)]
pub struct IterStackLoc {
    bits: u64,
}

pub open spec fn tag_of_bits(t: u64) -> IterStackLocTag {
    if t == 0 {
        IterStackLocTag::Iterable
    } else if t == 1 {
        IterStackLocTag::Marked
    } else {
        IterStackLocTag::PendingMark
    }
}

proof fn lemma_pack(v: u64, t: u64, o: u64)
    requires
        v < 0x2000_0000_0000_0000u64,
        t < 4,
        o < 2,
    ensures
        ((v | (t << 61u64) | (o << 63u64)) & 0x1fff_ffff_ffff_ffffu64) == v,
        ((v | (t << 61u64) | (o << 63u64)) >> 61u64) & 3u64 == t,
        (v | (t << 61u64) | (o << 63u64)) >> 63u64 == o,
{
    assert(((v | (t << 61u64) | (o << 63u64)) & 0x1fff_ffff_ffff_ffffu64) == v) by (bit_vector)
        requires
            v < 0x2000_0000_0000_0000u64,
            t < 4,
            o < 2,
    ;
    assert(((v | (t << 61u64) | (o << 63u64)) >> 61u64) & 3u64 == t) by (bit_vector)
        requires
            v < 0x2000_0000_0000_0000u64,
            t < 4,
            o < 2,
    ;
    assert((v | (t << 61u64) | (o << 63u64)) >> 63u64 == o) by (bit_vector)
        requires
            v < 0x2000_0000_0000_0000u64,
            t < 4,
            o < 2,
    ;
}

impl IterStackLoc {
    /// The index held in the low 61 bits.
    pub closed spec fn index(self) -> nat {
        (self.bits & INDEX_MASK) as nat
    }

    pub closed spec fn tag(self) -> IterStackLocTag {
        tag_of_bits((self.bits >> 61u64) & 3u64)
    }

    pub closed spec fn origin(self) -> HeapOrStackTag {
        if self.bits >> 63u64 == 1 {
            HeapOrStackTag::Stack
        } else {
            HeapOrStackTag::Heap
        }
    }

    fn pack(h: usize, tag: IterStackLocTag, heap_or_stack: HeapOrStackTag) -> (r: Self)
        requires
            h < LOC_INDEX_BOUND,
        ensures
            r.index() == h,
            r.tag() == tag,
            r.origin() == heap_or_stack,
    {
        let t: u64 = match tag {
            IterStackLocTag::Iterable => 0,
            IterStackLocTag::Marked => 1,
            IterStackLocTag::PendingMark => 2,
        };
        let o: u64 = match heap_or_stack {
            HeapOrStackTag::Heap => 0,
            HeapOrStackTag::Stack => 1,
        };
        let v: u64 = h as u64;
        proof {
            lemma_pack(v, t, o);
        }
        IterStackLoc { bits: v | (t << 61u64) | (o << 63u64) }
    }

    /// An entry that visits the cell at `h` if unmarked and clears its mark otherwise.
    pub fn iterable_loc(h: usize, heap_or_stack: HeapOrStackTag) -> (r: Self)
        requires
            h < LOC_INDEX_BOUND,
        ensures
            r.index() == h,
            r.tag() == IterStackLocTag::Iterable,
            r.origin() == heap_or_stack,
    {
        Self::pack(h, IterStackLocTag::Iterable, heap_or_stack)
    }

    /// An entry that visits the cell at `h` whether or not it is marked.
    pub fn mark_loc(h: usize, heap_or_stack: HeapOrStackTag) -> (r: Self)
        requires
            h < LOC_INDEX_BOUND,
        ensures
            r.index() == h,
            r.tag() == IterStackLocTag::Marked,
            r.origin() == heap_or_stack,
    {
        Self::pack(h, IterStackLocTag::Marked, heap_or_stack)
    }

    /// An entry that defers the marking and visit of the cell at `h`.
    pub fn pending_mark_loc(h: usize, heap_or_stack: HeapOrStackTag) -> (r: Self)
        requires
            h < LOC_INDEX_BOUND,
        ensures
            r.index() == h,
            r.tag() == IterStackLocTag::PendingMark,
            r.origin() == heap_or_stack,
    {
        Self::pack(h, IterStackLocTag::PendingMark, heap_or_stack)
    }

    /// The index this entry names.
    pub fn value(self) -> (r: u64)
        ensures
            r == self.index(),
            r < LOC_INDEX_BOUND,
    {
        let b: u64 = self.bits;
        let r: u64 = b & INDEX_MASK;
        assert(r < 0x2000_0000_0000_0000u64) by (bit_vector)
            requires
                r == b & 0x1fff_ffff_ffff_ffffu64,
        ;
        r
    }

    /// The traversal tag.
    pub fn get_tag(self) -> (r: IterStackLocTag)
        ensures
            r == self.tag(),
    {
        let t: u64 = (self.bits >> 61u64) & 3u64;
        if t == 0 {
            IterStackLocTag::Iterable
        } else if t == 1 {
            IterStackLocTag::Marked
        } else {
            IterStackLocTag::PendingMark
        }
    }

    /// The array this entry indexes.
    pub fn heap_or_stack(self) -> (r: HeapOrStackTag)
        ensures
            r == self.origin(),
    {
        if self.bits >> 63u64 == 1 {
            HeapOrStackTag::Stack
        } else {
            HeapOrStackTag::Heap
        }
    }

    pub fn is_marked(self) -> (r: bool)
        ensures
            r == (self.tag() == IterStackLocTag::Marked),
    {
        match self.get_tag() {
            IterStackLocTag::Marked => true,
            _ => false,
        }
    }

    pub fn is_pending_mark(self) -> (r: bool)
        ensures
            r == (self.tag() == IterStackLocTag::PendingMark),
    {
        match self.get_tag() {
            IterStackLocTag::PendingMark => true,
            _ => false,
        }
    }

    /// The location without its tag.
    pub fn as_ref(self) -> (r: Ref)
        ensures
            self.origin() == HeapOrStackTag::Heap ==> r == Ref::HeapCell(self.index() as usize),
            self.origin() == HeapOrStackTag::Stack ==> r == Ref::StackCell(self.index() as usize),
    {
        let v: usize = self.value() as usize;
        match self.heap_or_stack() {
            HeapOrStackTag::Heap => Ref::heap_cell(v),
            HeapOrStackTag::Stack => Ref::stack_cell(v),
        }
    }
}

} // verus!
