use vstd::prelude::*;

use crate::model::{has_loop, is_loop, lemma_walk_none_persists, walk, Alive};
use crate::polyhedron::Polyhedron2;
use crate::utils::{Handle, MeshError};

verus! {

/// A mesh facet: one half-edge on its boundary loop, or none.
#[derive(Clone, Copy, PartialEq, Eq, Structural, Debug)]
pub struct Facet {
    pub edge: Option<Handle>,
    pub live: bool,
}

impl Facet {
    /// A live facet with no boundary edge yet.
    pub fn new() -> (f: Facet)
        ensures
            f == (Facet { edge: None, live: true }),
    {
        Facet { edge: None, live: true }
    }
}

impl Facet {
    /// Number of half-edges bounding this facet: follows `next` from the
    /// boundary edge until the starting edge recurs.  Fails with
    /// `MissingAdjacency` when the facet has no boundary edge, a `next`
    /// reference is absent along the loop, or the loop never closes.
    #[verifier::loop_isolation(false)]
    pub fn degree(&self, mesh: &Polyhedron2) -> (r: Result<usize, MeshError>)
        requires
            mesh.wf(),
            mesh.edge_ref_ok(self.edge),
        ensures
            match r {
                Ok(d) => {
                    &&& self.edge matches Some(h) && is_loop(mesh.edges@, h.index as int, d as int)
                    &&& 1 <= d <= mesh.edges@.len()
                },
                Err(err) => {
                    &&& err == MeshError::MissingAdjacency
                    &&& match self.edge {
                        Some(h) => !has_loop(mesh.edges@, h.index as int),
                        None => true,
                    }
                },
            },
    {
        let start: usize = match self.edge {
            Some(h) => h.index,
            None => {
                return Err(MeshError::MissingAdjacency);
            },
        };
        proof {
            mesh.lemma_wf_edges_closed();
        }
        let mut cur: usize = start;
        let mut steps: usize = 0;
        while steps < mesh.edges.len()
            invariant
                mesh.wf(),
                start < mesh.edges.len(),
                cur < mesh.edges.len(),
                steps <= mesh.edges.len(),
                walk(mesh.edges@, start as int, steps as nat) == Option::<int>::Some(cur as int),
                forall|k: nat|
                    1 <= k <= steps ==> #[trigger] walk(mesh.edges@, start as int, k)
                        != Option::<int>::Some(start as int),
            decreases mesh.edges.len() - steps,
        {
            match mesh.edges[cur].next {
                None => {
                    proof {
                        assert(walk(mesh.edges@, start as int, (steps + 1) as nat) is None);
                        assert forall|d: int| 1 <= d <= mesh.edges@.len() implies !is_loop(
                            mesh.edges@,
                            start as int,
                            d,
                        ) by {
                            if d > steps {
                                lemma_walk_none_persists(
                                    mesh.edges@,
                                    start as int,
                                    (steps + 1) as nat,
                                    d as nat,
                                );
                            }
                        }
                        assert(!has_loop(mesh.edges@, start as int));
                    }
                    return Err(MeshError::MissingAdjacency);
                },
                Some(h) => {
                    proof {
                        assert(walk(mesh.edges@, start as int, (steps + 1) as nat)
                            == Option::<int>::Some(h.index as int));
                    }
                    cur = h.index;
                    steps = steps + 1;
                    if cur == start {
                        proof {
                            assert(is_loop(mesh.edges@, start as int, steps as int));
                        }
                        return Ok(steps);
                    }
                },
            }
        }
        proof {
            assert forall|d: int| 1 <= d <= mesh.edges@.len() implies !is_loop(
                mesh.edges@,
                start as int,
                d,
            ) by {
                assert(walk(mesh.edges@, start as int, d as nat) != Option::<int>::Some(
                    start as int,
                ));
            }
            assert(!has_loop(mesh.edges@, start as int));
        }
        Err(MeshError::MissingAdjacency)
    }
}

impl Alive for Facet {
    open spec fn is_live(self) -> bool {
        self.live
    }
}

} // verus!
