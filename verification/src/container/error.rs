use vstd::prelude::*;

verus! {

/// Why a command on the container tree failed.
#[derive(PartialEq, Eq, Structural, Clone, Copy, Debug)]
pub enum WmError {
    /// The container to attach already has a parent.
    AlreadyAttached,
    /// The container has no parent.
    NoParent,
    /// The containers are not in the same tree.
    NoCommonAncestor,
    /// No ancestor of the container is a child of the common ancestor.
    NoAncestorUnderCommon,
    /// No containers were given to wrap.
    NoTargets,
    /// No container in the tree has the identifier.
    NoContainerWithId,
}

impl WmError {
    /// A human-readable description of the error.
    pub fn message(&self) -> (r: &'static str)
        ensures
            *self == WmError::AlreadyAttached ==> r@ == "Cannot attach an already attached container."@,
            *self == WmError::NoParent ==> r@ == "No parent."@,
            *self == WmError::NoCommonAncestor ==> r@ == "No common ancestor between containers."@,
            *self == WmError::NoAncestorUnderCommon ==> r@
                == "Failed to get ancestor of container to move."@,
            *self == WmError::NoTargets ==> r@ == "Failed to get starting index."@,
            *self == WmError::NoContainerWithId ==> r@ == "No container with given id"@,
    {
        match self {
            WmError::AlreadyAttached => "Cannot attach an already attached container.",
            WmError::NoParent => "No parent.",
            WmError::NoCommonAncestor => "No common ancestor between containers.",
            WmError::NoAncestorUnderCommon => "Failed to get ancestor of container to move.",
            WmError::NoTargets => "Failed to get starting index.",
            WmError::NoContainerWithId => "No container with given id",
        }
    }
}

} // verus!
