//! Variable-touch events.
//!
//! Exactly one access is recorded as the *first access* of each distinct
//! name; only that first access determines how the name is classified.

use vstd::prelude::*;

verus! {

/// One touch of a variable, as the tree walk reports it.
pub enum VarAccess {
    /// The name was read.
    Read,
    /// The name was assigned a non-variable expression.
    SetValue,
    /// The name was assigned from another variable (the alias target).
    SetAlias(String),
    /// The name was bound as a loop variable over the named iterable.
    LoopVar(String),
}

/// The mathematical counterpart of [`VarAccess`].
pub enum AccessKind {
    Read,
    SetValue,
    SetAlias(Seq<char>),
    LoopVar(Seq<char>),
}

impl DeepView for VarAccess {
    type V = AccessKind;

    open spec fn deep_view(&self) -> AccessKind {
        match self {
            VarAccess::Read => AccessKind::Read,
            VarAccess::SetValue => AccessKind::SetValue,
            VarAccess::SetAlias(t) => AccessKind::SetAlias(t@),
            VarAccess::LoopVar(t) => AccessKind::LoopVar(t@),
        }
    }
}

impl VarAccess {
    /// A value-preserving copy.
    pub fn dup(&self) -> (r: VarAccess)
        ensures
            r.deep_view() == self.deep_view(),
    {
        match self {
            VarAccess::Read => VarAccess::Read,
            VarAccess::SetValue => VarAccess::SetValue,
            VarAccess::SetAlias(t) => VarAccess::SetAlias(t.clone()),
            VarAccess::LoopVar(t) => VarAccess::LoopVar(t.clone()),
        }
    }
}

} // verus!
