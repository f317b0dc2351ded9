//! A planar polygonal mesh in the half-edge representation, edited through
//! combinatorial Euler operators.
//!
//! Elements live in arenas owned by [`polyhedron::Polyhedron2`] and refer to
//! one another through stable integer [`utils::Handle`]s; an absent relation
//! is an absent option.  Every operator validates its preconditions before it
//! mutates anything, so a failing call leaves the mesh unchanged.

pub mod euler;
pub mod facet;
pub mod halfedge;
pub mod laws;
pub mod model;
pub mod polyhedron;
pub mod pos;
pub mod utils;
pub mod vertex;
