//! The typed representation of one function under analysis.
//!
//! Identifiers — variables, region names, block names, struct names —
//! arrive as interned symbols: small integers with identity equality,
//! produced by the external interning collaborator. The core never sees
//! the underlying text.
//!
//! A [`Func`] owns its variable declarations, struct declarations, basic
//! blocks and top-level assertions; it is built once and only read
//! afterwards. All recursion in [`Ty`] and [`Constraint`] is tree-shaped:
//! no sharing, no cycles.

use vstd::prelude::*;

use crate::variance::Variance;

verus! {

/// A block identifier: an interned symbol.
#[derive(Clone, Copy, Debug, Hash, PartialEq, Eq, PartialOrd, Ord, Structural)]
pub struct BasicBlock(pub u32);

/// A storage location, identified by an interned symbol.
#[derive(Clone, Copy, Debug, Hash, PartialEq, Eq, Structural)]
pub struct Variable {
    pub name: u32,
}

/// An abstract region variable, identified by an interned symbol; not
/// yet a concrete point set.
#[derive(Clone, Copy, Debug, Hash, PartialEq, Eq, Structural)]
pub struct RegionName {
    pub name: u32,
}

/// A struct identifier, an interned symbol.
#[derive(Clone, Copy, Debug, Hash, PartialEq, Eq, Structural)]
pub struct StructName {
    pub name: u32,
}

/// Whether a struct's generic parameter slot holds a region or a type.
#[derive(Clone, Copy, Debug, Hash, PartialEq, Eq, Structural)]
pub enum Kind {
    Region,
    Type,
}

/// One generic parameter slot of a struct declaration: its kind and the
/// variance it imposes for subtyping.
#[derive(Clone, Copy, Debug, Hash, PartialEq, Eq, Structural)]
pub struct StructParameter {
    pub kind: Kind,
    pub variance: Variance,
}

/// A struct declaration: a name plus the ordered parameter slots.
pub struct StructDecl {
    pub name: StructName,
    pub parameters: Vec<StructParameter>,
}

/// A type: a tree of references around unit and opaque struct
/// applications. A shared reference keeps its referent's variance; a
/// mutable reference forces the referent invariant.
pub enum Ty {
    Ref(RegionName, Box<Ty>),
    RefMut(RegionName, Box<Ty>),
    Unit,
    Struct(StructName, Vec<TyParameter>),
}

/// One argument of a struct type application: a region or a nested type.
pub enum TyParameter {
    Region(RegionName),
    Ty(Box<Ty>),
}

/// A variable declaration: the variable and its declared type.
pub struct VariableDecl {
    pub var: Variable,
    pub ty: Box<Ty>,
}

/// A precise program location: a block and the index of an action in it.
#[derive(Clone, Copy, Debug, Hash, PartialEq, Eq, Structural)]
pub struct Point {
    pub block: BasicBlock,
    pub action: usize,
}

/// A concrete region: a set of program points. Held as a sequence for
/// iteration, but duplicates and order carry no meaning — every contract
/// speaks of [`Region::to_set`].
#[derive(Debug)]
pub struct Region {
    pub points: Vec<Point>,
}

impl Region {
    /// The set of points this region denotes.
    pub open spec fn to_set(self) -> Set<Point> {
        self.points@.to_set()
    }

    /// Whether `p` is one of this region's points.
    pub fn contains_point(&self, p: Point) -> (r: bool)
        ensures
            r == self.to_set().contains(p),
    {
        let n: usize = self.points.len();
        let mut i: usize = 0;
        while i < n
            invariant
                n == self.points.len(),
                i <= n,
                forall|j: int| 0 <= j < i ==> self.points@[j] != p,
            decreases n - i,
        {
            if self.points[i] == p {
                assert(self.points@.contains(p));
                return true;
            }
            i = i + 1;
        }
        assert(!self.points@.contains(p));
        false
    }

    /// Whether every point of `self` is also a point of `other`.
    pub fn subset_of(&self, other: &Region) -> (r: bool)
        ensures
            r == self.to_set().subset_of(other.to_set()),
    {
        let n: usize = self.points.len();
        let mut i: usize = 0;
        while i < n
            invariant
                n == self.points.len(),
                i <= n,
                forall|j: int| 0 <= j < i ==> other.to_set().contains(self.points@[j]),
            decreases n - i,
        {
            if !other.contains_point(self.points[i]) {
                assert(self.to_set().contains(self.points@[i as int]));
                return false;
            }
            i = i + 1;
        }
        assert forall|p: Point| self.to_set().contains(p) implies other.to_set().contains(p) by {
            let j = choose|j: int| 0 <= j < self.points@.len() && self.points@[j] == p;
        }
        true
    }

    /// Whether `self` and `other` denote exactly the same set of points.
    pub fn same_points(&self, other: &Region) -> (r: bool)
        ensures
            r == (self.to_set() == other.to_set()),
    {
        let fwd = self.subset_of(other);
        let bwd = other.subset_of(self);
        if fwd && bwd {
            proof {
                assert(self.to_set() =~= other.to_set());
            }
            true
        } else {
            false
        }
    }
}

/// One straight-line instruction of a basic block.
pub enum Action {
    /// The variable receives a borrow tagged with the region.
    Borrow(Variable, RegionName),
    /// `Assign(dst, src)`: `dst = src`.
    Assign(Variable, Variable),
    /// An inline logical obligation.
    Constraint(Box<Constraint>),
    /// A read of the variable.
    Use(Variable),
    /// A write to the variable.
    Write(Variable),
    Noop,
}

/// A quantified outlives-constraint: a small logic over region names.
pub enum Constraint {
    /// The body must hold for every instantiation of the bound names.
    ForAll(Vec<RegionName>, Box<Constraint>),
    /// The body must hold for at least one instantiation.
    Exists(Vec<RegionName>, Box<Constraint>),
    /// The body is owed only when every premise holds.
    Implies(Vec<OutlivesConstraint>, Box<Constraint>),
    /// Conjunction.
    All(Vec<Constraint>),
    /// A leaf outlives obligation.
    Outlives(OutlivesConstraint),
}

/// `sup` outlives `sub`: `sup`'s point set must contain `sub`'s.
#[derive(Clone, Copy, Debug, Hash, PartialEq, Eq, Structural)]
pub struct OutlivesConstraint {
    pub sup: RegionName,
    pub sub: RegionName,
}

/// A checkable top-level claim about the final region assignment or
/// about liveness.
pub enum Assertion {
    /// The named region is exactly this point set.
    Eq(RegionName, Region),
    /// The named region contains the point.
    In(RegionName, Point),
    /// The named region does not contain the point.
    NotIn(RegionName, Point),
    /// The variable is live on entry to the block.
    Live(Variable, BasicBlock),
    /// The variable is not live on entry to the block.
    NotLive(Variable, BasicBlock),
}

/// One basic block: its name, its ordered actions, and its successor
/// edges. Successor order is kept for deterministic iteration only.
pub struct BasicBlockData {
    pub name: BasicBlock,
    pub actions: Vec<Action>,
    pub successors: Vec<BasicBlock>,
}

/// One function under analysis. `data` is an ordered association of
/// block name to block data: well-formedness asks the names to be
/// unique, and the first entry is the designated entry block.
pub struct Func {
    pub decls: Vec<VariableDecl>,
    pub structs: Vec<StructDecl>,
    pub data: Vec<BasicBlockData>,
    pub assertions: Vec<Assertion>,
}

impl Func {
    /// The block names, in declaration order.
    pub open spec fn block_names(self) -> Seq<BasicBlock> {
        self.data@.map(|i: int, b: BasicBlockData| b.name)
    }

    /// Block names are pairwise distinct: `data` is a map keyed by name.
    pub open spec fn blocks_unique(self) -> bool {
        forall|i: int, j: int|
            0 <= i < j < self.data@.len() ==> self.data@[i].name != self.data@[j].name
    }

    /// The index of the block named `b`, if any.
    pub open spec fn block_index_of(self, b: BasicBlock) -> Option<int> {
        if exists|i: int| 0 <= i < self.data@.len() && self.data@[i].name == b {
            Some(choose|i: int| 0 <= i < self.data@.len() && self.data@[i].name == b)
        } else {
            None
        }
    }

    /// Looks a block up by name, returning its index in `data`.
    pub fn find_block(&self, b: BasicBlock) -> (r: Option<usize>)
        ensures
            match r {
                Some(i) => i < self.data@.len() && self.data@[i as int].name == b,
                None => forall|i: int| 0 <= i < self.data@.len() ==> self.data@[i].name != b,
            },
    {
        let n: usize = self.data.len();
        let mut i: usize = 0;
        while i < n
            invariant
                n == self.data.len(),
                i <= n,
                forall|j: int| 0 <= j < i ==> self.data@[j].name != b,
            decreases n - i,
        {
            if self.data[i].name == b {
                return Some(i);
            }
            i = i + 1;
        }
        None
    }
}

} // verus!
