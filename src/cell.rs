//! Tagged heap cells with their two traversal bits.
use vstd::prelude::*;

verus! {

/// What a cell holds, apart from its traversal bits.
#[derive(Clone, Copy, Debug, PartialEq, Eq, Structural)]
pub enum CellValue {
    /// A reference to a structure header at the given heap index.
    Str(usize),
    /// A cons cell: head at the given index, tail right after it.
    Lis(usize),
    /// An unbound variable, or one bound through the given heap index.
    Var(usize),
    /// An attributed variable chained to the given heap index.
    AttrVar(usize),
    /// A variable that lives on the machine stack.
    StackVar(usize),
    /// A reference to a partial-string segment.
    PStrLoc(usize),
    /// A view into a partial string: the string at the given index, the offset in the next cell.
    PStrOffset(usize),
    /// A partial-string segment, named by an atom; its continuation is in the next cell.
    PStr(u64),
    /// A structure header (or, with arity 0, an atom): name and arity.
    Atom(u64, usize),
    /// A small integer.
    Fixnum(i64),
    /// The empty list.
    EmptyList,
}

/// A heap cell: its value and the `mark` and `forwarding` bits.
#[derive(Clone, Copy, Debug, PartialEq, Eq, Structural)]
pub struct HeapCellValue {
    pub value: CellValue,
    pub mark: bool,
    pub forwarding: bool,
}

/// The cell with both traversal bits cleared.
pub open spec fn clean(c: HeapCellValue) -> HeapCellValue {
    HeapCellValue { value: c.value, mark: false, forwarding: false }
}

/// Neither traversal bit is set.
pub open spec fn is_clean(c: HeapCellValue) -> bool {
    !c.mark && !c.forwarding
}

/// Where a reference-kind cell points: `Some((on_stack, index))`.
pub open spec fn referent(v: CellValue) -> Option<(bool, usize)> {
    match v {
        CellValue::Str(h) => Some((false, h)),
        CellValue::Lis(h) => Some((false, h)),
        CellValue::Var(h) => Some((false, h)),
        CellValue::AttrVar(h) => Some((false, h)),
        CellValue::PStrLoc(h) => Some((false, h)),
        CellValue::StackVar(s) => Some((true, s)),
        _ => None,
    }
}

/// A reference kind whose visit goes on to its target without yielding:
/// variables and structure or partial-string locations.
pub open spec fn is_chained(v: CellValue) -> bool {
    match v {
        CellValue::Str(_) | CellValue::PStrLoc(_) | CellValue::Var(_) | CellValue::AttrVar(_)
        | CellValue::StackVar(_) => true,
        _ => false,
    }
}

impl HeapCellValue {
    fn plain(value: CellValue) -> (r: Self)
        ensures
            r.value == value,
            is_clean(r),
    {
        HeapCellValue { value, mark: false, forwarding: false }
    }

    /// A variable cell at, or bound through, heap index `h`.
    pub fn heap_loc(h: usize) -> (r: Self)
        ensures
            r.value == CellValue::Var(h),
            is_clean(r),
    {
        Self::plain(CellValue::Var(h))
    }

    /// An attributed variable chained to heap index `h`.
    pub fn attr_var(h: usize) -> (r: Self)
        ensures
            r.value == CellValue::AttrVar(h),
            is_clean(r),
    {
        Self::plain(CellValue::AttrVar(h))
    }

    /// A variable on the machine stack at index `s`.
    pub fn stack_loc(s: usize) -> (r: Self)
        ensures
            r.value == CellValue::StackVar(s),
            is_clean(r),
    {
        Self::plain(CellValue::StackVar(s))
    }

    /// A reference to the structure whose header is at heap index `h`.
    pub fn str_loc(h: usize) -> (r: Self)
        ensures
            r.value == CellValue::Str(h),
            is_clean(r),
    {
        Self::plain(CellValue::Str(h))
    }

    /// A cons cell whose head is at heap index `h`.
    pub fn list_loc(h: usize) -> (r: Self)
        ensures
            r.value == CellValue::Lis(h),
            is_clean(r),
    {
        Self::plain(CellValue::Lis(h))
    }

    /// A reference to the partial-string segment at heap index `h`.
    pub fn pstr_loc(h: usize) -> (r: Self)
        ensures
            r.value == CellValue::PStrLoc(h),
            is_clean(r),
    {
        Self::plain(CellValue::PStrLoc(h))
    }

    /// A view into the partial string at heap index `h`.
    pub fn pstr_offset(h: usize) -> (r: Self)
        ensures
            r.value == CellValue::PStrOffset(h),
            is_clean(r),
    {
        Self::plain(CellValue::PStrOffset(h))
    }

    /// A partial-string segment named by atom `name`.
    pub fn pstr(name: u64) -> (r: Self)
        ensures
            r.value == CellValue::PStr(name),
            is_clean(r),
    {
        Self::plain(CellValue::PStr(name))
    }

    /// A structure header `name/arity`; an atom when `arity` is 0.
    pub fn atom(name: u64, arity: usize) -> (r: Self)
        ensures
            r.value == CellValue::Atom(name, arity),
            is_clean(r),
    {
        Self::plain(CellValue::Atom(name, arity))
    }

    /// A small integer.
    pub fn fixnum(n: i64) -> (r: Self)
        ensures
            r.value == CellValue::Fixnum(n),
            is_clean(r),
    {
        Self::plain(CellValue::Fixnum(n))
    }

    /// The empty list.
    pub fn empty_list() -> (r: Self)
        ensures
            r.value == CellValue::EmptyList,
            is_clean(r),
    {
        Self::plain(CellValue::EmptyList)
    }

    pub fn get_mark_bit(&self) -> (r: bool)
        ensures
            r == self.mark,
    {
        self.mark
    }

    pub fn get_forwarding_bit(&self) -> (r: bool)
        ensures
            r == self.forwarding,
    {
        self.forwarding
    }

    pub fn set_mark_bit(&mut self, b: bool)
        ensures
            *final(self) == (HeapCellValue { mark: b, ..*old(self) }),
    {
        self.mark = b;
    }

    pub fn set_forwarding_bit(&mut self, b: bool)
        ensures
            *final(self) == (HeapCellValue { forwarding: b, ..*old(self) }),
    {
        self.forwarding = b;
    }

    /// The same cell with both traversal bits cleared.
    pub fn unmarked(&self) -> (r: Self)
        ensures
            r == clean(*self),
    {
        HeapCellValue { value: self.value, mark: false, forwarding: false }
    }
}

} // verus!
