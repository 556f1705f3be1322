//! A directed graph whose vertices carry data, stored as adjacency lists.

use std::marker::PhantomData;
use vstd::prelude::*;

verus! {

pub(super) struct Vertex<Data> {
    pub(super) data: Data,
    pub(super) edges: Vec<u32>,
}

/// Keys of graph vertices: a key stands for the index of a vertex.
pub trait VertexKey: Sized {
    spec fn spec_index(&self) -> u32;

    fn make(index: u32) -> (k: Self)
        ensures
            k.spec_index() == index,
    ;

    fn index(&self) -> (i: u32)
        ensures
            i == self.spec_index(),
    ;
}

impl VertexKey for u32 {
    open spec fn spec_index(&self) -> u32 {
        *self
    }

    fn make(index: u32) -> (k: Self) {
        index
    }

    fn index(&self) -> (i: u32) {
        *self
    }
}

pub struct Graph<K, Data> {
    phantom: PhantomData<K>,
    pub(super) vertices: Vec<Vertex<Data>>,
}

impl<K, Data> Graph<K, Data> where K: VertexKey {
    /// The number of vertices.
    pub closed spec fn num_vertices(&self) -> nat {
        self.vertices@.len()
    }

    /// The data of vertex `i`.
    pub closed spec fn data(&self, i: int) -> Data {
        self.vertices@[i].data
    }

    /// The targets of the edges leaving vertex `i`, in insertion order.
    pub closed spec fn edges(&self, i: int) -> Seq<u32> {
        self.vertices@[i].edges@
    }

    pub fn new() -> (g: Self)
        ensures
            g.num_vertices() == 0,
    {
        Graph { vertices: Vec::new(), phantom: PhantomData }
    }

    /// Adds a vertex holding `data` with no edges; answers its key.
    pub fn add_vertex(&mut self, data: Data) -> (k: K)
        requires
            old(self).num_vertices() < u32::MAX,
        ensures
            k.spec_index() == old(self).num_vertices(),
            final(self).num_vertices() == old(self).num_vertices() + 1,
            final(self).data(old(self).num_vertices() as int) == data,
            final(self).edges(old(self).num_vertices() as int) == Seq::<u32>::empty(),
            forall|i: int|
                0 <= i < old(self).num_vertices() ==> final(self).data(i) == old(self).data(i)
                    && final(self).edges(i) == old(self).edges(i),
    {
        let index = self.vertices.len() as u32;
        let edges = Vec::new();
        let vertex = Vertex { data, edges };
        self.vertices.push(vertex);
        proof {
            assert forall|i: int| 0 <= i < old(self).num_vertices() implies self.vertices@[i]
                == old(self).vertices@[i] by {}
        }
        K::make(index)
    }

    /// Adds an edge from `v1` to `v2`.
    pub fn add_edge(&mut self, v1: K, v2: K)
        requires
            v1.spec_index() < old(self).num_vertices(),
        ensures
            final(self).num_vertices() == old(self).num_vertices(),
            final(self).edges(v1.spec_index() as int) == old(self).edges(
                v1.spec_index() as int,
            ).push(v2.spec_index()),
            forall|i: int|
                0 <= i < old(self).num_vertices() ==> final(self).data(i) == old(self).data(i),
            forall|i: int|
                0 <= i < old(self).num_vertices() && i != v1.spec_index() ==> final(self).edges(i)
                    == old(self).edges(i),
    {
        let v1 = v1.index() as usize;
        let v2 = v2.index();
        self.vertices[v1].edges.push(v2);
    }
}

} // verus!
