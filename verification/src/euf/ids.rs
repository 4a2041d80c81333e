//! Handle newtypes and borrowed query views.

use vstd::prelude::*;

verus! {

/// One uninterpreted or built-in sort handle.
#[derive(Debug, Clone, Copy, PartialEq, Eq, Hash, PartialOrd, Ord, Structural)]
pub struct SortId(pub u32);

/// One function symbol handle.
#[derive(Debug, Clone, Copy, PartialEq, Eq, Hash, PartialOrd, Ord, Structural)]
pub struct SymbolId(pub u32);

/// One canonical term handle.
#[derive(Debug, Clone, Copy, PartialEq, Eq, Hash, PartialOrd, Ord, Structural)]
pub struct TermId(pub u32);

/// One canonical theory atom handle.
#[derive(Debug, Clone, Copy, PartialEq, Eq, Hash, PartialOrd, Ord, Structural)]
pub struct TheoryAtomId(pub u32);

/// One current equivalence-class representative handle.
#[derive(Debug, Clone, Copy, PartialEq, Eq, Hash, PartialOrd, Ord, Structural)]
pub struct EClassId(pub u32);

/// Handles that name the entries of a table by insertion index.
pub trait InternId: Copy {
    /// The insertion index behind this handle.
    spec fn id(&self) -> int;

    /// Creates one handle from a zero-based insertion index.
    fn from_index(index: usize) -> (handle: Self)
        requires
            index <= u32::MAX,
        ensures
            handle.id() == index,
    ;
}

impl InternId for SortId {
    open spec fn id(&self) -> int {
        self.0 as int
    }

    fn from_index(index: usize) -> (handle: Self) {
        SortId(index as u32)
    }
}

impl InternId for SymbolId {
    open spec fn id(&self) -> int {
        self.0 as int
    }

    fn from_index(index: usize) -> (handle: Self) {
        SymbolId(index as u32)
    }
}

impl InternId for TermId {
    open spec fn id(&self) -> int {
        self.0 as int
    }

    fn from_index(index: usize) -> (handle: Self) {
        TermId(index as u32)
    }
}

impl InternId for TheoryAtomId {
    open spec fn id(&self) -> int {
        self.0 as int
    }

    fn from_index(index: usize) -> (handle: Self) {
        TheoryAtomId(index as u32)
    }
}

impl InternId for EClassId {
    open spec fn id(&self) -> int {
        self.0 as int
    }

    fn from_index(index: usize) -> (handle: Self) {
        EClassId(index as u32)
    }
}

impl SortId {
    /// Returns the zero-based index named by this handle.
    pub fn index(self) -> (i: usize)
        ensures
            i == self.0,
    {
        self.0 as usize
    }
}

impl SymbolId {
    /// Returns the zero-based index named by this handle.
    pub fn index(self) -> (i: usize)
        ensures
            i == self.0,
    {
        self.0 as usize
    }
}

impl TermId {
    /// Returns the zero-based index named by this handle.
    pub fn index(self) -> (i: usize)
        ensures
            i == self.0,
    {
        self.0 as usize
    }
}

impl TheoryAtomId {
    /// Returns the zero-based index named by this handle.
    pub fn index(self) -> (i: usize)
        ensures
            i == self.0,
    {
        self.0 as usize
    }
}

impl EClassId {
    /// Returns the zero-based index named by this handle.
    pub fn index(self) -> (i: usize)
        ensures
            i == self.0,
    {
        self.0 as usize
    }
}

/// Borrowed query view for one sort.
#[derive(Debug, Clone, Copy)]
pub enum SortRef<'a> {
    /// The built-in Boolean sort.
    Bool,
    /// One uninterpreted sort named by `name`.
    Uninterpreted {
        /// Borrowed sort name.
        name: &'a str,
    },
}

/// Borrowed query view for one function symbol.
#[derive(Debug, Clone, Copy)]
pub struct SymbolRef<'a> {
    /// Symbol name.
    pub name: &'a str,
    /// Borrowed argument-sort slice.
    pub arg_sorts: &'a [SortId],
    /// Result sort.
    pub result_sort: SortId,
}

/// Borrowed query view for one canonical term.
///
/// A term is one symbol applied to a list of terms. Nullary symbols use an empty list; there is no
/// separate constant variant. Callers must only intern terms whose argument count and argument
/// sorts match the declared signature of `fun`.
#[derive(Debug, Clone, Copy)]
pub struct TermRef<'a> {
    /// The applied symbol.
    pub fun: SymbolId,
    /// Borrowed child-term slice.
    pub args: &'a [TermId],
}

impl<'a> TermRef<'a> {
    /// Returns one borrowed nullary application view.
    pub fn nullary(fun: SymbolId) -> (term: Self)
        ensures
            term.fun == fun,
            term.args@ == Seq::<TermId>::empty(),
    {
        TermRef { fun, args: &[] }
    }
}

/// Query view for one theory atom.
#[derive(Debug, Clone, Copy, PartialEq, Eq, Structural)]
pub enum AtomRef {
    /// Equality between two terms.
    Eq(TermId, TermId),
}

/// Kind of theory atom represented by one literal.
#[derive(Debug, Clone, Copy, PartialEq, Eq, Structural)]
pub enum AtomLiteralKind {
    /// Equality atom over two term endpoints.
    Eq {
        /// Left endpoint.
        lhs: TermId,
        /// Right endpoint.
        rhs: TermId,
        /// Whether the literal is positive.
        positive: bool,
    },
}

} // verus!
