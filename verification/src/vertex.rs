use vstd::prelude::*;

use crate::model::{
    fan_index, fan_walk, has_fan_loop, is_fan_loop, lemma_fan_walk_none_persists, next_index, Alive,
};
use crate::polyhedron::Polyhedron2;
use crate::pos::Pos2;
use crate::utils::{Handle, MeshError};

verus! {

/// A mesh vertex: a position and one outgoing half-edge, if any.
#[derive(Clone, Copy, PartialEq, Eq, Structural, Debug)]
pub struct Vertex {
    pub position: Pos2,
    pub edge: Option<Handle>,
    pub live: bool,
}

impl Vertex {
    /// Number of edges incident to this vertex: starting from its outgoing
    /// edge, alternately takes `next` then `opposite` until the starting edge
    /// recurs.  Fails with `MissingAdjacency` when the vertex has no outgoing
    /// edge, and with `BorderElement` when a `next` or `opposite` reference
    /// is absent along the fan, or the fan never closes: the walk is
    /// undefined for boundary vertices.
    #[verifier::loop_isolation(false)]
    pub fn degree(&self, mesh: &Polyhedron2) -> (r: Result<usize, MeshError>)
        requires
            mesh.wf(),
            mesh.edge_ref_ok(self.edge),
        ensures
            match r {
                Ok(d) => {
                    &&& self.edge matches Some(h) && is_fan_loop(
                        mesh.edges@,
                        h.index as int,
                        d as int,
                    )
                    &&& 1 <= d <= mesh.edges@.len()
                },
                Err(err) => match self.edge {
                    Some(h) => err == MeshError::BorderElement && !has_fan_loop(
                        mesh.edges@,
                        h.index as int,
                    ),
                    None => err == MeshError::MissingAdjacency,
                },
            },
    {
        let start: usize = match self.edge {
            Some(h) => h.index,
            None => {
                return Err(MeshError::MissingAdjacency);
            },
        };
        proof {
            mesh.lemma_wf_edges_closed();
        }
        let mut cur: usize = start;
        let mut steps: usize = 0;
        while steps < mesh.edges.len()
            invariant
                cur < mesh.edges.len(),
                steps <= mesh.edges.len(),
                fan_walk(mesh.edges@, start as int, steps as nat) == Option::<int>::Some(
                    cur as int,
                ),
                forall|k: nat|
                    1 <= k <= steps ==> #[trigger] fan_walk(mesh.edges@, start as int, k)
                        != Option::<int>::Some(start as int),
            decreases mesh.edges.len() - steps,
        {
            let stop = match mesh.edges[cur].next {
                None => true,
                Some(nh) => match mesh.edges[nh.index].opposite {
                    None => true,
                    Some(oh) => {
                        proof {
                            assert(next_index(mesh.edges@, cur as int) == Option::<int>::Some(
                                nh.index as int,
                            ));
                            assert(fan_index(mesh.edges@, cur as int) == Option::<int>::Some(
                                oh.index as int,
                            ));
                            assert(fan_walk(mesh.edges@, start as int, (steps + 1) as nat)
                                == Option::<int>::Some(oh.index as int));
                        }
                        cur = oh.index;
                        steps = steps + 1;
                        if cur == start {
                            proof {
                                assert(is_fan_loop(mesh.edges@, start as int, steps as int));
                            }
                            return Ok(steps);
                        }
                        false
                    },
                },
            };
            if stop {
                proof {
                    assert(fan_walk(mesh.edges@, start as int, (steps + 1) as nat) is None);
                    assert forall|d: int| 1 <= d <= mesh.edges@.len() implies !is_fan_loop(
                        mesh.edges@,
                        start as int,
                        d,
                    ) by {
                        if d > steps {
                            lemma_fan_walk_none_persists(
                                mesh.edges@,
                                start as int,
                                (steps + 1) as nat,
                                d as nat,
                            );
                        }
                    }
                    assert(!has_fan_loop(mesh.edges@, start as int));
                }
                return Err(MeshError::BorderElement);
            }
        }
        proof {
            assert forall|d: int| 1 <= d <= mesh.edges@.len() implies !is_fan_loop(
                mesh.edges@,
                start as int,
                d,
            ) by {
                assert(fan_walk(mesh.edges@, start as int, d as nat) != Option::<int>::Some(
                    start as int,
                ));
            }
            assert(!has_fan_loop(mesh.edges@, start as int));
        }
        Err(MeshError::BorderElement)
    }
}

impl Alive for Vertex {
    open spec fn is_live(self) -> bool {
        self.live
    }
}

} // verus!
