//! The three-valued variance lattice and its composition laws.
//!
//! A variance describes how subtyping obligations flow through a type
//! constructor: covariantly (`Co`), contravariantly (`Contra`), or not at
//! all (`In`, invariance). Composition (`xform`) is what the type walker
//! applies when descending one level of type structure.

use vstd::prelude::*;

verus! {

/// Direction-sensitivity of subtyping through a type constructor.
#[derive(Clone, Copy, Debug, Hash, PartialEq, Eq, Structural)]
pub enum Variance {
    /// Covariant: obligations pass through unchanged.
    Co,
    /// Contravariant: obligations flip direction.
    Contra,
    /// Invariant: obligations are frozen in both directions.
    In,
}

impl Variance {
    /// What `invert` returns: `Co` and `Contra` swap, `In` is fixed.
    pub open spec fn invert_spec(self) -> Variance {
        match self {
            Variance::Co => Variance::Contra,
            Variance::Contra => Variance::Co,
            Variance::In => Variance::In,
        }
    }

    /// What `xform` returns: under `Co` the nested variance passes
    /// through, under `Contra` it is inverted, and `In` absorbs
    /// everything.
    pub open spec fn xform_spec(self, v: Variance) -> Variance {
        match self {
            Variance::Co => v,
            Variance::Contra => v.invert_spec(),
            Variance::In => Variance::In,
        }
    }

    /// Swaps `Co` and `Contra`; `In` is its own inverse.
    pub fn invert(self) -> (r: Variance)
        ensures
            r == self.invert_spec(),
    {
        match self {
            Variance::Co => Variance::Contra,
            Variance::Contra => Variance::Co,
            Variance::In => Variance::In,
        }
    }

    /// Composes an ambient variance `self` with a nested variance `v`
    /// when descending one type level.
    pub fn xform(self, v: Variance) -> (r: Variance)
        ensures
            r == self.xform_spec(v),
    {
        match self {
            Variance::Co => v,
            Variance::Contra => v.invert(),
            Variance::In => Variance::In,
        }
    }
}

/// Inverting a variance twice gives it back: `invert` is an involution.
pub proof fn lemma_invert_involutive(v: Variance)
    ensures
        v.invert_spec().invert_spec() == v,
{
}

/// An invariant ambient absorbs whatever is composed onto it:
/// `xform(In, w) == In` for every `w`, so once a walk passes through an
/// invariant position every variance it later yields is `In`.
pub proof fn lemma_invariant_absorbs(w: Variance)
    ensures
        Variance::In.xform_spec(w) == Variance::In,
{
}

/// Composition is associative: composing position-by-position while
/// descending a chain of nested positions agrees with composing the
/// chain first, so inner-to-outer and outer-to-inner grouping match.
pub proof fn lemma_xform_associative(a: Variance, b: Variance, c: Variance)
    ensures
        a.xform_spec(b).xform_spec(c) == a.xform_spec(b.xform_spec(c)),
{
}

} // verus!
