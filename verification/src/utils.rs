use vstd::prelude::*;

verus! {

/// A stable index into one of the mesh container's element arenas.
///
/// Elements are compared by identity, and with an arena representation
/// identity is the index of the slot an element occupies, so two handles are
/// equal exactly when they name the same element.
#[derive(Clone, Copy, PartialEq, Eq, Structural, Debug)]
pub struct Handle {
    pub index: usize,
}

/// Wraps an arena index as a handle.
pub fn new_handle(index: usize) -> (h: Handle)
    ensures
        h.index == index,
{
    Handle { index }
}

/// Whether the slot list `v` holds `x`.
pub(crate) fn slot_listed(v: &Vec<usize>, x: usize) -> (r: bool)
    ensures
        r <==> exists|j: int| 0 <= j < v@.len() && #[trigger] v@[j] == x,
{
    let mut i: usize = 0;
    while i < v.len()
        invariant
            i <= v@.len(),
            forall|j: int| 0 <= j < i ==> #[trigger] v@[j] != x,
        decreases v@.len() - i,
    {
        if v[i] == x {
            return true;
        }
        i = i + 1;
    }
    false
}

/// The ways a traversal or an Euler operator can reject its input.  A failing
/// operator returns one of these without having mutated the mesh.
#[derive(Clone, Copy, PartialEq, Eq, Structural, Debug)]
pub enum MeshError {
    /// A required `next`, `face`, `vertex` or boundary reference is absent
    /// where the algorithm needs it, or a facet loop never closes.
    MissingAdjacency,
    /// A degree or fan walk reached an edge lacking an `opposite`: the
    /// operation is undefined for a mesh boundary.
    BorderElement,
    /// Caller-supplied elements fail an operator's structural precondition.
    PreconditionViolation,
    /// An element that an operator must retire is not live in the container.
    IdentityNotFound,
}

} // verus!
