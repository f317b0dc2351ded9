use vstd::prelude::*;

use crate::model::Alive;
use crate::utils::Handle;

verus! {

/// One directed side of an undirected mesh edge.
///
/// `vertex` names the origin vertex, `face` the bounding facet, `opposite`
/// the twin half-edge of the same undirected edge, and `next` the next
/// half-edge around the same facet.  Any of them may be absent.  `live` says
/// whether the container still owns the element: retired slots keep their
/// fields but count for nothing.
#[derive(Clone, Copy, PartialEq, Eq, Structural, Debug)]
pub struct HalfEdge {
    pub vertex: Option<Handle>,
    pub face: Option<Handle>,
    pub opposite: Option<Handle>,
    pub next: Option<Handle>,
    pub live: bool,
}

impl HalfEdge {
    /// A live half-edge with every relation absent.
    pub fn new() -> (e: HalfEdge)
        ensures
            e == (HalfEdge { vertex: None, face: None, opposite: None, next: None, live: true }),
    {
        HalfEdge { vertex: None, face: None, opposite: None, next: None, live: true }
    }
}

impl Alive for HalfEdge {
    open spec fn is_live(self) -> bool {
        self.live
    }
}

} // verus!
