use std::collections::{HashMap, HashSet};
use std::ops::{Add, Sub};
use vstd::prelude::*;

verus! {

/// An identifier: compared for equality and copied freely.
pub trait ID: Eq + Copy {

}

/// The identifier of a vertex.
pub trait VertexID: ID {

}

/// The identifier of an edge between two vertices.
pub trait EdgeID<V: VertexID>: ID {
    fn from(&self) -> V;

    fn to(&self) -> V;
}

/// The structural operations of a link-cut tree: joining two trees by an edge, removing
/// an edge, and making a vertex the root of its tree.
pub trait LCTBasic<V: VertexID, E: EdgeID<V>>: Sized {
    fn link(&self, v: V, w: V) -> Self;

    fn cut(&self, v: V, w: V) -> Self;

    fn evert(&self, v: V) -> Self;
}

/// A link-cut tree whose edges carry costs: path queries and updates.
pub trait LCTValue<V: VertexID, E: EdgeID<V>, W: Ord + Add<W> + Sub<W>>: LCTBasic<V, E> {
    fn parent(&self, v: V) -> Option<V>;

    fn root(&self, v: V) -> V;

    fn cost(&self, v: V) -> W;

    fn mincost(&self, v: V) -> W;

    fn update(&self, v: V, x: W) -> Self;
}

/// A forest kept as its set of vertices and the costs of its edges.
pub struct TrivialLCTImpl<V: VertexID, E: EdgeID<V>, W: Ord + Add<W> + Sub<W>> {
    pub vertex: HashSet<V>,
    pub edges: HashMap<E, W>,
}

} // verus!
