//! Strongly connected components of a directed graph, after Tarjan.

use std::marker::PhantomData;
use vstd::prelude::*;
use vstd::set_lib::{lemma_int_range, lemma_len_subset, set_int_range};

verus! {

struct Vertex<Data> {
    data: Data,
    edges: Vec<u32>,
}

/// Keys of graph vertices: a key stands for the index of a vertex.
pub trait VertexKey: Sized {
    spec fn spec_index(&self) -> u32;

    fn make(index: u32) -> (k: Self)
        ensures
            k.spec_index() == index,
    ;

    fn index(&self) -> (i: u32)
        ensures
            i == self.spec_index(),
    ;
}

impl VertexKey for u32 {
    open spec fn spec_index(&self) -> u32 {
        *self
    }

    fn make(index: u32) -> (k: Self) {
        index
    }

    fn index(&self) -> (i: u32) {
        *self
    }
}

pub struct Graph<K, Data> {
    phantom: PhantomData<K>,
    vertices: Vec<Vertex<Data>>,
}

impl<K, Data> Graph<K, Data> {
    /// The number of vertices.
    pub closed spec fn num_vertices(&self) -> nat {
        self.vertices@.len()
    }

    /// The data of vertex `i`.
    pub closed spec fn data(&self, i: int) -> Data {
        self.vertices@[i].data
    }

    /// The targets of the edges leaving vertex `i`, in insertion order.
    pub closed spec fn edges(&self, i: int) -> Seq<u32> {
        self.vertices@[i].edges@
    }

    /// Every edge ends at a vertex of the graph.
    pub open spec fn edges_in_range(&self) -> bool {
        forall|i: int, j: int|
            0 <= i < self.num_vertices() && 0 <= j < self.edges(i).len() ==> #[trigger] self.edges(
                i,
            )[j] < self.num_vertices()
    }
}

impl<K, Data> Graph<K, Data> where K: VertexKey {
    pub fn new() -> (g: Self)
        ensures
            g.num_vertices() == 0,
    {
        Graph { vertices: Vec::new(), phantom: PhantomData }
    }

    /// Adds a vertex holding `data` with no edges; answers its key.
    pub fn add_vertex(&mut self, data: Data) -> (k: K)
        requires
            old(self).num_vertices() < u32::MAX,
        ensures
            k.spec_index() == old(self).num_vertices(),
            final(self).num_vertices() == old(self).num_vertices() + 1,
            final(self).data(old(self).num_vertices() as int) == data,
            final(self).edges(old(self).num_vertices() as int) == Seq::<u32>::empty(),
            forall|i: int|
                0 <= i < old(self).num_vertices() ==> final(self).data(i) == old(self).data(i)
                    && final(self).edges(i) == old(self).edges(i),
    {
        let index = self.vertices.len() as u32;
        let edges = Vec::new();
        let vertex = Vertex { data, edges };
        self.vertices.push(vertex);
        proof {
            assert forall|i: int| 0 <= i < old(self).num_vertices() implies self.vertices@[i]
                == old(self).vertices@[i] by {}
        }
        K::make(index)
    }

    /// Adds an edge from `v1` to `v2`.
    pub fn add_edge(&mut self, v1: K, v2: K)
        requires
            v1.spec_index() < old(self).num_vertices(),
        ensures
            final(self).num_vertices() == old(self).num_vertices(),
            final(self).edges(v1.spec_index() as int) == old(self).edges(
                v1.spec_index() as int,
            ).push(v2.spec_index()),
            forall|i: int|
                0 <= i < old(self).num_vertices() ==> final(self).data(i) == old(self).data(i),
            forall|i: int|
                0 <= i < old(self).num_vertices() && i != v1.spec_index() ==> final(self).edges(i)
                    == old(self).edges(i),
    {
        let v1 = v1.index() as usize;
        let v2 = v2.index();
        self.vertices[v1].edges.push(v2);
    }
}

/// `comps` lists vertices of a graph with `n` vertices, none twice.
pub open spec fn disjoint_components(comps: Seq<Seq<int>>, n: int) -> bool {
    &&& forall|c: int, i: int|
        0 <= c < comps.len() && 0 <= i < comps[c].len() ==> 0 <= #[trigger] comps[c][i] < n
    &&& forall|c1: int, i1: int, c2: int, i2: int|
        0 <= c1 < comps.len() && 0 <= i1 < comps[c1].len() && 0 <= c2 < comps.len() && 0 <= i2
            < comps[c2].len() && (c1 != c2 || i1 != i2) ==> #[trigger] comps[c1][i1]
            != #[trigger] comps[c2][i2]
}

/// Vertex `v` is in one of `comps`.
pub open spec fn listed(comps: Seq<Seq<int>>, v: int) -> bool {
    exists|c: int, i: int| 0 <= c < comps.len() && 0 <= i < comps[c].len() && #[trigger] comps[c][i] == v
}

/// `comps` splits the vertices `0..n` into nonempty parts: each vertex is
/// in exactly one of them.
pub open spec fn partition(comps: Seq<Seq<int>>, n: int) -> bool {
    &&& disjoint_components(comps, n)
    &&& forall|c: int| 0 <= c < comps.len() ==> #[trigger] comps[c].len() > 0
    &&& forall|v: int| 0 <= v < n ==> #[trigger] listed(comps, v)
}

/// Every edge leaving a vertex of component `c1` ends in component `c1` or
/// in one before it: the components come in reverse topological order.
pub open spec fn topological<K, Data>(graph: &Graph<K, Data>, comps: Seq<Seq<int>>) -> bool {
    forall|c1: int, i1: int, j: int, c2: int, i2: int|
        #![trigger comps[c2][i2], graph.edges(comps[c1][i1])[j]]
        0 <= c1 < comps.len() && 0 <= i1 < comps[c1].len() && 0 <= j < graph.edges(
            comps[c1][i1],
        ).len() && 0 <= c2 < comps.len() && 0 <= i2 < comps[c2].len() && comps[c2][i2]
            == graph.edges(comps[c1][i1])[j] ==> c2 <= c1
}

/// The graph has an edge from `u` to `w`.
pub open spec fn has_edge<K, Data>(graph: &Graph<K, Data>, u: int, w: int) -> bool {
    exists|j: int| 0 <= j < graph.edges(u).len() && graph.edges(u)[j] as int == w
}

/// `path` walks along the edges of `graph`.
pub open spec fn is_path<K, Data>(graph: &Graph<K, Data>, path: Seq<int>) -> bool {
    &&& path.len() > 0
    &&& forall|i: int| 0 <= i < path.len() ==> 0 <= #[trigger] path[i] < graph.num_vertices()
    &&& forall|i: int| 0 <= i < path.len() - 1 ==> has_edge(graph, #[trigger] path[i], path[i + 1])
}

/// A walk leads from `a` to `b`.
#[verifier::opaque]
pub open spec fn reaches<K, Data>(graph: &Graph<K, Data>, a: int, b: int) -> bool {
    exists|path: Seq<int>| is_path(graph, path) && path[0] == a && path[path.len() - 1] == b
}

/// The vertices of each component reach one another.
pub open spec fn strongly_connected<K, Data>(graph: &Graph<K, Data>, comps: Seq<Seq<int>>) -> bool {
    forall|c: int, i1: int, i2: int|
        0 <= c < comps.len() && 0 <= i1 < comps[c].len() && 0 <= i2 < comps[c].len() ==> reaches(
            graph,
            #[trigger] comps[c][i1],
            #[trigger] comps[c][i2],
        )
}

pub proof fn lemma_reaches_refl<K, Data>(graph: &Graph<K, Data>, a: int)
    requires
        0 <= a < graph.num_vertices(),
    ensures
        reaches(graph, a, a),
{
    reveal(reaches);
    let path = seq![a];
    assert(is_path(graph, path) && path[0] == a && path[path.len() - 1] == a);
}

pub proof fn lemma_reaches_edge<K, Data>(graph: &Graph<K, Data>, u: int, j: int)
    requires
        graph.edges_in_range(),
        0 <= u < graph.num_vertices(),
        0 <= j < graph.edges(u).len(),
    ensures
        reaches(graph, u, graph.edges(u)[j] as int),
{
    reveal(reaches);
    let w = graph.edges(u)[j] as int;
    let path = seq![u, w];
    assert(has_edge(graph, path[0], path[1]));
    assert(is_path(graph, path) && path[0] == u && path[path.len() - 1] == w);
}

pub proof fn lemma_reaches_trans<K, Data>(graph: &Graph<K, Data>, a: int, b: int, c: int)
    requires
        reaches(graph, a, b),
        reaches(graph, b, c),
    ensures
        reaches(graph, a, c),
{
    reveal(reaches);
    let p1 = choose|path: Seq<int>| is_path(graph, path) && path[0] == a && path[path.len() - 1] == b;
    let p2 = choose|path: Seq<int>| is_path(graph, path) && path[0] == b && path[path.len() - 1] == c;
    let path = p1 + p2.subrange(1, p2.len() as int);
    assert forall|i: int| 0 <= i < path.len() implies 0 <= #[trigger] path[i] < graph.num_vertices() by {
        if i < p1.len() {
            assert(path[i] == p1[i]);
        } else {
            assert(path[i] == p2[i - p1.len() + 1]);
        }
    }
    assert forall|i: int| 0 <= i < path.len() - 1 implies has_edge(graph, #[trigger] path[i], path[i + 1]) by {
        if i < p1.len() - 1 {
            assert(path[i] == p1[i]);
            assert(path[i + 1] == p1[i + 1]);
        } else if i == p1.len() - 1 {
            assert(path[i] == p1[i]);
            assert(path[i + 1] == p2[1]);
            assert(has_edge(graph, p2[0], p2[1]));
        } else {
            assert(path[i] == p2[i - p1.len() + 1]);
            assert(path[i + 1] == p2[i - p1.len() + 2]);
        }
    }
    if p2.len() > 1 {
        assert(path[path.len() - 1] == p2[p2.len() - 1]);
    } else {
        assert(path =~= p1);
    }
    assert(path[0] == p1[0]);
    assert(is_path(graph, path) && path[0] == a && path[path.len() - 1] == c);
}

/// The component that lists `v`.
pub open spec fn comp_of(comps: Seq<Seq<int>>, v: int) -> int {
    choose|c: int|
        #![trigger comps[c]]
        0 <= c < comps.len() && exists|i: int| 0 <= i < comps[c].len() && #[trigger] comps[c][i] == v
}

/// A vertex listed in component `c` has `c` as its component.
proof fn lemma_comp_of(comps: Seq<Seq<int>>, n: int, c: int, i: int)
    requires
        partition(comps, n),
        0 <= c < comps.len(),
        0 <= i < comps[c].len(),
    ensures
        comp_of(comps, comps[c][i]) == c,
{
    let v = comps[c][i];
    assert(exists|i2: int| 0 <= i2 < comps[c].len() && #[trigger] comps[c][i2] == v);
    let c2 = comp_of(comps, v);
    let i2 = choose|i2: int| 0 <= i2 < comps[c2].len() && #[trigger] comps[c2][i2] == v;
    assert(comps[c2][i2] == comps[c][i]);
}

/// A walk never leads to a later component.
proof fn lemma_path_order<K, Data>(graph: &Graph<K, Data>, comps: Seq<Seq<int>>, path: Seq<int>)
    requires
        partition(comps, graph.num_vertices() as int),
        topological(graph, comps),
        is_path(graph, path),
    ensures
        comp_of(comps, path[path.len() - 1]) <= comp_of(comps, path[0]),
    decreases path.len(),
{
    let n = graph.num_vertices() as int;
    if path.len() > 1 {
        let q = path.drop_last();
        assert forall|i: int| 0 <= i < q.len() - 1 implies has_edge(graph, #[trigger] q[i], q[i + 1]) by {
            assert(q[i] == path[i]);
            assert(q[i + 1] == path[i + 1]);
        }
        assert forall|i: int| 0 <= i < q.len() implies 0 <= #[trigger] q[i] < n by {
            assert(q[i] == path[i]);
        }
        lemma_path_order(graph, comps, q);
        let u = path[path.len() - 2];
        let w = path[path.len() - 1];
        assert(has_edge(graph, path[path.len() - 2], path[path.len() - 2 + 1]));
        let j = choose|j: int| 0 <= j < graph.edges(u).len() && graph.edges(u)[j] as int == w;
        assert(listed(comps, u));
        assert(listed(comps, w));
        let (cu, iu) = choose|c: int, i: int| 0 <= c < comps.len() && 0 <= i < comps[c].len() && #[trigger] comps[c][i] == u;
        let (cw, iw) = choose|c: int, i: int| 0 <= c < comps.len() && 0 <= i < comps[c].len() && #[trigger] comps[c][i] == w;
        lemma_comp_of(comps, n, cu, iu);
        lemma_comp_of(comps, n, cw, iw);
        assert(comps[cw][iw] == graph.edges(comps[cu][iu])[j]);
    }
}

/// Two vertices that reach each other lie in the same component: with a
/// partition in reverse topological order, the strongly connected
/// components that `SCC::run` returns are maximal.
pub proof fn law_components_maximal<K, Data>(
    graph: &Graph<K, Data>,
    comps: Seq<Seq<int>>,
    c1: int,
    i1: int,
    c2: int,
    i2: int,
)
    requires
        partition(comps, graph.num_vertices() as int),
        topological(graph, comps),
        0 <= c1 < comps.len(),
        0 <= i1 < comps[c1].len(),
        0 <= c2 < comps.len(),
        0 <= i2 < comps[c2].len(),
        reaches(graph, comps[c1][i1], comps[c2][i2]),
        reaches(graph, comps[c2][i2], comps[c1][i1]),
    ensures
        c1 == c2,
{
    reveal(reaches);
    let n = graph.num_vertices() as int;
    let a = comps[c1][i1];
    let b = comps[c2][i2];
    let p1 = choose|path: Seq<int>| is_path(graph, path) && path[0] == a && path[path.len() - 1] == b;
    let p2 = choose|path: Seq<int>| is_path(graph, path) && path[0] == b && path[path.len() - 1] == a;
    lemma_path_order(graph, comps, p1);
    lemma_path_order(graph, comps, p2);
    lemma_comp_of(comps, n, c1, i1);
    lemma_comp_of(comps, n, c2, i2);
}

/// `result` holds, component by component, clones of the data of the
/// vertices that `comps` lists.
pub open spec fn clones_of<K, Data: Clone>(
    graph: &Graph<K, Data>,
    comps: Seq<Seq<int>>,
    result: Seq<Vec<Data>>,
) -> bool {
    &&& result.len() == comps.len()
    &&& forall|c: int| 0 <= c < comps.len() ==> #[trigger] result[c]@.len() == comps[c].len()
    &&& forall|c: int, i: int|
        0 <= c < comps.len() && 0 <= i < comps[c].len() ==> cloned(
            graph.data(comps[c][i]),
            #[trigger] result[c]@[i],
        )
}

pub struct SCC<'a, K: 'a, Data: 'a> {
    graph: &'a Graph<K, Data>,
    stack: Vec<usize>,
    indices: Vec<usize>,
    lowlink: Vec<usize>,
    onstack: Vec<bool>,
    result: Vec<Vec<Data>>,
    curr_index: usize,
    /// The vertices of each component in `result`.
    comps: Ghost<Seq<Seq<int>>>,
    /// Every vertex of `comps`.
    done: Ghost<Set<int>>,
    /// The vertices whose visit has ended.
    finished: Ghost<Set<int>>,
    /// For each vertex on the stack, a vertex on the stack that it reaches
    /// and whose index is its lowlink.
    low_wit: Ghost<Map<int, int>>,
}

impl<'a, K: VertexKey, Data: Clone> SCC<'a, K, Data> {
    spec fn n(&self) -> int {
        self.graph.num_vertices() as int
    }

    spec fn is_visited(&self, v: int) -> bool {
        self.indices@[v] != usize::MAX
    }

    spec fn visited_set(&self) -> Set<int> {
        Set::new(|v: int| 0 <= v < self.n() && self.indices@[v] != usize::MAX)
    }

    /// `v` is on the stack.
    spec fn stacked(&self, v: int) -> bool {
        exists|k: int| 0 <= k < self.stack@.len() && #[trigger] self.stack@[k] == v
    }

    /// The edge from `u` to `w` is accounted for: `w` is in a component
    /// already, or on the stack no lower than `u`'s lowlink.
    spec fn edge_ok(&self, u: int, w: int) -> bool {
        self.done@.contains(w) || (self.stacked(w) && self.lowlink@[u] <= self.indices@[w])
    }

    /// The lowlink of `u` is the index of a vertex on the stack that `u`
    /// reaches.
    spec fn wit_ok(&self, u: int) -> bool {
        &&& self.low_wit@.contains_key(u)
        &&& self.stacked(self.low_wit@[u])
        &&& self.indices@[self.low_wit@[u]] == self.lowlink@[u]
        &&& reaches(self.graph, u, self.low_wit@[u])
    }

    /// The sizes the exec code indexes by.
    spec fn lens(&self) -> bool {
        &&& self.n() < u32::MAX
        &&& self.graph.edges_in_range()
        &&& self.indices@.len() == self.n()
        &&& self.lowlink@.len() == self.n()
        &&& self.onstack@.len() == self.n()
        &&& self.graph.vertices@.len() == self.n()
    }

    #[verifier::opaque]
    spec fn inv(&self) -> bool {
        let n = self.n();
        &&& self.lens()
        &&& self.visited_set().len() == self.curr_index
        &&& forall|k: int|
            0 <= k < self.stack@.len() ==> 0 <= #[trigger] self.stack@[k] < n && self.is_visited(
                self.stack@[k] as int,
            ) && !self.done@.contains(self.stack@[k] as int)
        &&& forall|k1: int, k2: int|
            0 <= k1 < k2 < self.stack@.len() ==> self.indices@[#[trigger] self.stack@[k1] as int]
                < self.indices@[#[trigger] self.stack@[k2] as int]
        &&& forall|k1: int, k2: int|
            0 <= k1 < self.stack@.len() && 0 <= k2 < self.stack@.len() && k1 != k2
                ==> #[trigger] self.stack@[k1] != #[trigger] self.stack@[k2]
        &&& forall|k: int|
            0 <= k < self.stack@.len() ==> self.indices@[self.stack@[0] as int] <= self.lowlink@[
                #[trigger] self.stack@[k] as int] <= self.indices@[self.stack@[k] as int]
        &&& forall|v: int|
            0 <= v < n && #[trigger] self.is_visited(v) ==> self.indices@[v] < self.curr_index && (
            self.done@.contains(v) || self.stacked(v)) && (self.onstack@[v] == !self.done@.contains(
                v,
            ))
        &&& forall|c: int, i: int|
            0 <= c < self.comps@.len() && 0 <= i < self.comps@[c].len() ==> self.done@.contains(
                #[trigger] self.comps@[c][i],
            )
        &&& forall|v: int| #[trigger]
            self.done@.contains(v) ==> 0 <= v < n && self.is_visited(v) && listed(self.comps@, v)
        &&& forall|c: int| 0 <= c < self.comps@.len() ==> #[trigger] self.comps@[c].len() > 0
        &&& disjoint_components(self.comps@, n)
        &&& clones_of(self.graph, self.comps@, self.result@)
        &&& forall|u: int| #[trigger]
            self.finished@.contains(u) ==> 0 <= u < n && self.is_visited(u)
        &&& forall|u: int| #[trigger] self.done@.contains(u) ==> self.finished@.contains(u)
        &&& forall|u: int| #[trigger]
            self.finished@.contains(u) && !self.done@.contains(u) ==> self.lowlink@[u]
                < self.indices@[u] && forall|j: int|
                0 <= j < self.graph.edges(u).len() ==> self.edge_ok(
                    u,
                    #[trigger] self.graph.edges(u)[j] as int,
                )
        &&& forall|u: int, j: int|
            self.done@.contains(u) && 0 <= j < self.graph.edges(u).len() ==> self.done@.contains(
                #[trigger] self.graph.edges(u)[j] as int,
            )
        &&& topological(self.graph, self.comps@)
        &&& forall|k: int| 0 <= k < self.stack@.len() ==> self.wit_ok(#[trigger] self.stack@[k] as int)
        &&& strongly_connected(self.graph, self.comps@)
    }

    /// The state while the edges of `v`, pushed at stack position `p` onto
    /// the stack of `entry`, are visited, the first `k` of them done.
    #[verifier::opaque]
    spec fn visiting(&self, entry: Self, v: int, p: int, k: int) -> bool {
        &&& self.graph == entry.graph
        &&& 0 <= v < self.n()
        &&& 0 <= p == entry.stack@.len()
        &&& self.is_visited(v)
        &&& self.indices@[v] == entry.curr_index
        &&& self.curr_index > entry.curr_index
        &&& !self.done@.contains(v)
        &&& !entry.is_visited(v)
        &&& !self.finished@.contains(v)
        &&& p < self.stack@.len()
        &&& self.stack@[p] == v
        &&& self.stack@.subrange(0, p) == entry.stack@
        &&& forall|u: int|
            0 <= u < entry.n() && #[trigger] entry.is_visited(u) ==> self.is_visited(u)
                && self.indices@[u] == entry.indices@[u] && self.lowlink@[u] == entry.lowlink@[u]
        &&& forall|u: int| #[trigger] entry.finished@.contains(u) ==> self.finished@.contains(u)
        &&& forall|u: int| #[trigger]
            self.finished@.contains(u) ==> entry.finished@.contains(u) || !entry.is_visited(u)
        &&& forall|u: int| #[trigger] entry.done@.contains(u) ==> self.done@.contains(u)
        &&& forall|u: int|
            0 <= u < entry.n() && #[trigger] self.is_visited(u) && !entry.is_visited(u) && u != v
                ==> self.finished@.contains(u)
        &&& forall|q: int|
            p < q < self.stack@.len() ==> !entry.is_visited(#[trigger] self.stack@[q] as int)
                && self.lowlink@[v] <= self.lowlink@[self.stack@[q] as int]
        &&& forall|q: int|
            p <= q < self.stack@.len() ==> reaches(self.graph, v, #[trigger] self.stack@[q] as int)
        &&& 0 <= k <= self.graph.edges(v).len()
        &&& forall|j: int| 0 <= j < k ==> self.edge_ok(v, #[trigger] self.graph.edges(v)[j] as int)
    }

    /// What a visit of `v` from state `s0` leaves in state `s1`.
    #[verifier::opaque]
    spec fn scc_post(s0: Self, s1: Self, v: int) -> bool {
        &&& s1.graph == s0.graph
        &&& s1.lens()
        &&& s1.curr_index > s0.curr_index
        &&& s1.is_visited(v)
        &&& s1.indices@[v] == s0.curr_index
        &&& forall|u: int|
            0 <= u < s0.n() && #[trigger] s0.is_visited(u) ==> s1.is_visited(u) && s1.indices@[u]
                == s0.indices@[u] && s1.lowlink@[u] == s0.lowlink@[u]
        &&& s0.stack@.len() <= s1.stack@.len()
        &&& s1.stack@.subrange(0, s0.stack@.len() as int) == s0.stack@
        &&& s1.done@.contains(v) ==> s1.stack@ == s0.stack@ && s1.lowlink@[v] == s1.indices@[v]
        &&& !s1.done@.contains(v) ==> s1.stack@.len() > s0.stack@.len() && s1.stack@[s0.stack@.len() as int]
            == v
        &&& s0.stack@.len() == 0 ==> s1.stack@.len() == 0
        &&& s1.finished@.contains(v)
        &&& forall|u: int| #[trigger] s0.finished@.contains(u) ==> s1.finished@.contains(u)
        &&& forall|u: int| #[trigger]
            s1.finished@.contains(u) ==> s0.finished@.contains(u) || !s0.is_visited(u)
        &&& forall|u: int| #[trigger] s0.done@.contains(u) ==> s1.done@.contains(u)
        &&& forall|u: int|
            0 <= u < s0.n() && #[trigger] s1.is_visited(u) && !s0.is_visited(u)
                ==> s1.finished@.contains(u)
        &&& forall|q: int|
            s0.stack@.len() <= q < s1.stack@.len() ==> !s0.is_visited(#[trigger] s1.stack@[q] as int)
                && s1.lowlink@[v] <= s1.lowlink@[s1.stack@[q] as int] && reaches(
                s1.graph,
                v,
                s1.stack@[q] as int,
            )
    }

    proof fn lemma_lens(&self)
        requires
            self.inv(),
        ensures
            self.lens(),
    {
        reveal(SCC::inv);
    }

    proof fn lemma_visited_bounded(&self)
        requires
            self.indices@.len() == self.n(),
        ensures
            self.visited_set().finite(),
            self.visited_set().len() <= self.n(),
    {
        lemma_int_range(0, self.n());
        assert(self.visited_set().subset_of(set_int_range(0, self.n())));
        lemma_len_subset(self.visited_set(), set_int_range(0, self.n()));
    }

    /// A vertex not visited yet leaves room for one more index.
    proof fn lemma_room(&self, v: int)
        requires
            self.inv(),
            0 <= v < self.n(),
            !self.is_visited(v),
        ensures
            self.curr_index < self.n(),
    {
        reveal(SCC::inv);
        self.lemma_visited_bounded();
        assert(!self.visited_set().contains(v));
        assert(self.visited_set().insert(v).subset_of(set_int_range(0, self.n())));
        lemma_int_range(0, self.n());
        lemma_len_subset(self.visited_set().insert(v), set_int_range(0, self.n()));
    }

    /// The index counter stays within the number of vertices.
    proof fn lemma_counter(&self)
        requires
            self.inv(),
        ensures
            self.curr_index <= self.n(),
    {
        reveal(SCC::inv);
        self.lemma_visited_bounded();
    }

    /// Changing the lowlink and its witness at `v` keeps the invariant,
    /// where the lowlinks of the stack stay in their bounds and the new
    /// witness of `v` holds.
    #[verifier::spinoff_prover]
    #[verifier::rlimit(100)]
    proof fn lemma_set_lowlink(pre: Self, post: Self, v: int)
        requires
            pre.inv(),
            post.graph == pre.graph,
            post.stack == pre.stack,
            post.indices == pre.indices,
            post.onstack == pre.onstack,
            post.result == pre.result,
            post.curr_index == pre.curr_index,
            post.comps == pre.comps,
            post.done == pre.done,
            post.finished == pre.finished,
            !pre.finished@.contains(v),
            post.lowlink@.len() == pre.lowlink@.len(),
            forall|u: int| 0 <= u < pre.lowlink@.len() && u != v ==> post.lowlink@[u] == pre.lowlink@[u],
            forall|u: int| u != v && pre.low_wit@.contains_key(u) ==> post.low_wit@.contains_key(u)
                && post.low_wit@[u] == pre.low_wit@[u],
            pre.stacked(v) ==> post.wit_ok(v),
            forall|k: int|
                0 <= k < post.stack@.len() ==> post.indices@[post.stack@[0] as int] <= post.lowlink@[
                    #[trigger] post.stack@[k] as int] <= post.indices@[post.stack@[k] as int],
        ensures
            post.inv(),
    {
        reveal(SCC::inv);
        assert(post.visited_set() =~= pre.visited_set());
        assert forall|u: int| 0 <= u < post.n() && #[trigger] post.is_visited(u) implies post.indices@[u]
            < post.curr_index && (post.done@.contains(u) || post.stacked(u)) && (post.onstack@[u]
            == !post.done@.contains(u)) by {
            assert(pre.is_visited(u));
            if pre.stacked(u) {
                let k = choose|k: int| 0 <= k < pre.stack@.len() && #[trigger] pre.stack@[k] == u;
                assert(post.stack@[k] == u);
            }
        }
        assert forall|u: int| #[trigger]
            post.finished@.contains(u) && !post.done@.contains(u) implies post.lowlink@[u]
                < post.indices@[u] && forall|j: int|
                0 <= j < post.graph.edges(u).len() ==> post.edge_ok(
                    u,
                    #[trigger] post.graph.edges(u)[j] as int,
                ) by {
            assert(pre.finished@.contains(u));
            assert forall|j: int| 0 <= j < post.graph.edges(u).len() implies post.edge_ok(
                u,
                #[trigger] post.graph.edges(u)[j] as int,
            ) by {
                let w = pre.graph.edges(u)[j] as int;
                assert(pre.edge_ok(u, w));
                if pre.stacked(w) {
                    let k = choose|k: int| 0 <= k < pre.stack@.len() && #[trigger] pre.stack@[k] == w;
                    assert(post.stack@[k] == w);
                }
            }
        }
        assert forall|k: int| 0 <= k < post.stack@.len() implies post.wit_ok(#[trigger] post.stack@[k] as int) by {
            let u = post.stack@[k] as int;
            if u == v {
                assert(pre.stacked(v));
            } else {
                assert(pre.wit_ok(u));
                let x = pre.low_wit@[u];
                let kx = choose|kx: int| 0 <= kx < pre.stack@.len() && #[trigger] pre.stack@[kx] == x;
                assert(post.stack@[kx] == x);
            }
        }
    }

    /// Pushing a new vertex `v` keeps the invariant and starts its visit.
    #[verifier::spinoff_prover]
    #[verifier::rlimit(100)]
    proof fn lemma_enter(entry: Self, post: Self, v: int)
        requires
            entry.inv(),
            0 <= v < entry.n(),
            !entry.is_visited(v),
            entry.curr_index < entry.n(),
            post.graph == entry.graph,
            post.indices@ == entry.indices@.update(v, entry.curr_index),
            post.lowlink@ == entry.lowlink@.update(v, entry.curr_index),
            post.onstack@ == entry.onstack@.update(v, true),
            post.stack@ == entry.stack@.push(v as usize),
            post.curr_index == entry.curr_index + 1,
            post.result == entry.result,
            post.comps == entry.comps,
            post.done == entry.done,
            post.finished == entry.finished,
            post.low_wit@ == entry.low_wit@.insert(v, v),
        ensures
            post.inv(),
            post.visiting(entry, v, entry.stack@.len() as int, 0),
    {
        reveal(SCC::inv);
        reveal(SCC::visiting);
        let p = entry.stack@.len() as int;
        entry.lemma_visited_bounded();
        assert(!entry.visited_set().contains(v));
        assert(post.visited_set() =~= entry.visited_set().insert(v));
        assert(post.stacked(v)) by {
            assert(post.stack@[p] == v);
        }
        assert forall|k: int| 0 <= k < post.stack@.len() implies 0 <= #[trigger] post.stack@[k]
            < post.n() && post.is_visited(post.stack@[k] as int) && !post.done@.contains(
            post.stack@[k] as int,
        ) by {
            if k < p {
                assert(post.stack@[k] == entry.stack@[k]);
            }
        }
        assert forall|k1: int, k2: int| 0 <= k1 < k2 < post.stack@.len() implies post.indices@[
            #[trigger] post.stack@[k1] as int] < post.indices@[#[trigger] post.stack@[k2] as int] by {
            assert(post.stack@[k1] == entry.stack@[k1]);
            if k2 < p {
                assert(post.stack@[k2] == entry.stack@[k2]);
            } else {
                assert(entry.is_visited(post.stack@[k1] as int));
            }
        }
        assert forall|k1: int, k2: int|
            0 <= k1 < post.stack@.len() && 0 <= k2 < post.stack@.len() && k1 != k2
                implies #[trigger] post.stack@[k1] != #[trigger] post.stack@[k2] by {
            if k1 < p {
                assert(post.stack@[k1] == entry.stack@[k1]);
            }
            if k2 < p {
                assert(post.stack@[k2] == entry.stack@[k2]);
            }
        }
        assert forall|k: int| 0 <= k < post.stack@.len() implies post.indices@[
            post.stack@[0] as int] <= post.lowlink@[#[trigger] post.stack@[k] as int]
            <= post.indices@[post.stack@[k] as int] by {
            if p > 0 {
                assert(post.stack@[0] == entry.stack@[0]);
                assert(entry.is_visited(entry.stack@[0] as int));
                if k < p {
                    assert(post.stack@[k] == entry.stack@[k]);
                }
            }
        }
        assert forall|u: int| 0 <= u < post.n() && #[trigger] post.is_visited(u) implies post.indices@[u]
            < post.curr_index && (post.done@.contains(u) || post.stacked(u)) && (post.onstack@[u]
            == !post.done@.contains(u)) by {
            if u != v {
                assert(entry.is_visited(u));
                if entry.stacked(u) {
                    let k = choose|k: int| 0 <= k < entry.stack@.len() && #[trigger] entry.stack@[k] == u;
                    assert(post.stack@[k] == u);
                }
            }
        }
        assert forall|u: int| #[trigger] post.done@.contains(u) implies 0 <= u < post.n()
            && post.is_visited(u) && listed(post.comps@, u) by {
            assert(entry.done@.contains(u));
        }
        assert forall|u: int| #[trigger] post.finished@.contains(u) implies 0 <= u < post.n()
            && post.is_visited(u) by {
            assert(entry.finished@.contains(u));
        }
        assert forall|u: int| #[trigger]
            post.finished@.contains(u) && !post.done@.contains(u) implies post.lowlink@[u]
                < post.indices@[u] && forall|j: int|
                0 <= j < post.graph.edges(u).len() ==> post.edge_ok(
                    u,
                    #[trigger] post.graph.edges(u)[j] as int,
                ) by {
            assert(entry.finished@.contains(u));
            assert(u != v);
            assert forall|j: int| 0 <= j < post.graph.edges(u).len() implies post.edge_ok(
                u,
                #[trigger] post.graph.edges(u)[j] as int,
            ) by {
                let w = entry.graph.edges(u)[j] as int;
                assert(entry.edge_ok(u, w));
                if entry.stacked(w) {
                    let k = choose|k: int| 0 <= k < entry.stack@.len() && #[trigger] entry.stack@[k] == w;
                    assert(post.stack@[k] == w);
                }
            }
        }
        assert forall|u: int, j: int|
            post.done@.contains(u) && 0 <= j < post.graph.edges(u).len() implies post.done@.contains(
                #[trigger] post.graph.edges(u)[j] as int,
            ) by {
            assert(entry.done@.contains(u));
        }

        assert forall|k: int| 0 <= k < post.stack@.len() implies post.wit_ok(#[trigger] post.stack@[k] as int) by {
            let u = post.stack@[k] as int;
            if k == p {
                lemma_reaches_refl(post.graph, v);
                assert(post.stack@[p] == v);
            } else {
                assert(post.stack@[k] == entry.stack@[k]);
                assert(entry.wit_ok(u));
                assert(u != v);
                let x = entry.low_wit@[u];
                let kx = choose|kx: int| 0 <= kx < entry.stack@.len() && #[trigger] entry.stack@[kx] == x;
                assert(post.stack@[kx] == x);
                assert(entry.is_visited(x));
            }
        }
        assert(post.stack@.subrange(0, p) =~= entry.stack@);
        assert forall|u: int|
            0 <= u < entry.n() && #[trigger] entry.is_visited(u) implies post.is_visited(u)
                && post.indices@[u] == entry.indices@[u] && post.lowlink@[u] == entry.lowlink@[u] by {
            assert(u != v);
        }
        assert forall|q: int| p <= q < post.stack@.len() implies reaches(
            post.graph,
            v,
            #[trigger] post.stack@[q] as int,
        ) by {
            lemma_reaches_refl(post.graph, v);
        }
    }

    /// Visiting the edge `k` of `v` to a vertex `w` not seen before.
    #[verifier::spinoff_prover]
    #[verifier::rlimit(100)]
    proof fn lemma_tree(entry: Self, before: Self, mid: Self, post: Self, v: int, w: int, p: int, k: int)
        requires
            before.inv(),
            before.visiting(entry, v, p, k),
            k < before.graph.edges(v).len(),
            before.graph.edges(v)[k] as int == w,
            0 <= w < before.n(),
            !before.is_visited(w),
            mid.inv(),
            Self::scc_post(before, mid, w),
            post.graph == mid.graph,
            post.stack == mid.stack,
            post.indices == mid.indices,
            post.onstack == mid.onstack,
            post.result == mid.result,
            post.curr_index == mid.curr_index,
            post.comps == mid.comps,
            post.done == mid.done,
            post.finished == mid.finished,
            post.lowlink@ == mid.lowlink@.update(
                v,
                if mid.lowlink@[v] < mid.lowlink@[w] {
                    mid.lowlink@[v]
                } else {
                    mid.lowlink@[w]
                },
            ),
            post.low_wit@ == (if mid.lowlink@[w] < mid.lowlink@[v] {
                mid.low_wit@.insert(v, mid.low_wit@[w])
            } else {
                mid.low_wit@
            }),
        ensures
            post.inv(),
            post.visiting(entry, v, p, k + 1),
    {
        Self::lemma_tree_inv(entry, before, mid, post, v, w, p, k);
        Self::lemma_tree_visiting(entry, before, mid, post, v, w, p, k);
    }

    #[verifier::spinoff_prover]
    #[verifier::rlimit(100)]
    proof fn lemma_tree_inv(entry: Self, before: Self, mid: Self, post: Self, v: int, w: int, p: int, k: int)
        requires
            before.inv(),
            before.visiting(entry, v, p, k),
            k < before.graph.edges(v).len(),
            before.graph.edges(v)[k] as int == w,
            0 <= w < before.n(),
            !before.is_visited(w),
            mid.inv(),
            Self::scc_post(before, mid, w),
            post.graph == mid.graph,
            post.stack == mid.stack,
            post.indices == mid.indices,
            post.onstack == mid.onstack,
            post.result == mid.result,
            post.curr_index == mid.curr_index,
            post.comps == mid.comps,
            post.done == mid.done,
            post.finished == mid.finished,
            post.lowlink@ == mid.lowlink@.update(
                v,
                if mid.lowlink@[v] < mid.lowlink@[w] {
                    mid.lowlink@[v]
                } else {
                    mid.lowlink@[w]
                },
            ),
            post.low_wit@ == (if mid.lowlink@[w] < mid.lowlink@[v] {
                mid.low_wit@.insert(v, mid.low_wit@[w])
            } else {
                mid.low_wit@
            }),
        ensures
            post.inv(),
    {
        reveal(SCC::inv);
        reveal(SCC::visiting);
        reveal(SCC::scc_post);
        let bl = before.stack@.len() as int;
        assert(mid.stack@[p] == v) by {
            assert(mid.stack@.subrange(0, bl)[p] == mid.stack@[p]);
        }
        assert(mid.stack@.subrange(0, p) =~= entry.stack@) by {
            assert forall|i: int| 0 <= i < p implies mid.stack@[i] == entry.stack@[i] by {
                assert(mid.stack@.subrange(0, bl)[i] == mid.stack@[i]);
                assert(before.stack@.subrange(0, p)[i] == before.stack@[i]);
            }
        }
        assert(mid.stack@[0] == before.stack@[0]) by {
            assert(mid.stack@.subrange(0, bl)[0] == mid.stack@[0]);
        }
        assert(before.is_visited(v));
        assert(mid.indices@[w] == before.curr_index);
        assert(before.indices@[v] < before.curr_index);
        assert(mid.lowlink@[v] <= mid.indices@[v]) by {
            assert(mid.stack@[p] == v);
        }
        if !mid.done@.contains(w) {
            assert(mid.stack@[bl] == w);
            assert(mid.stacked(w));
        } else {
            assert(before.is_visited(before.stack@[0] as int));
        }
        assert(post.wit_ok(v)) by {
            if mid.lowlink@[w] < mid.lowlink@[v] {
                assert(!mid.done@.contains(w));
                assert(mid.wit_ok(mid.stack@[bl] as int));
                lemma_reaches_edge(mid.graph, v, k);
                lemma_reaches_trans(mid.graph, v, w, mid.low_wit@[w]);
                let x = mid.low_wit@[w];
                let kx = choose|kx: int| 0 <= kx < mid.stack@.len() && #[trigger] mid.stack@[kx] == x;
                assert(post.stack@[kx] == x);
            } else {
                assert(mid.wit_ok(mid.stack@[p] as int));
                let x = mid.low_wit@[v];
                let kx = choose|kx: int| 0 <= kx < mid.stack@.len() && #[trigger] mid.stack@[kx] == x;
                assert(post.stack@[kx] == x);
            }
        }
        assert forall|kk: int| 0 <= kk < post.stack@.len() implies post.indices@[
            post.stack@[0] as int] <= post.lowlink@[#[trigger] post.stack@[kk] as int]
            <= post.indices@[post.stack@[kk] as int] by {
            assert(mid.indices@[mid.stack@[0] as int] <= mid.lowlink@[mid.stack@[kk] as int]);
        }
        assert(!mid.finished@.contains(v));
        assert(mid.stacked(v));
        Self::lemma_set_lowlink(mid, post, v);
    }

    #[verifier::spinoff_prover]
    #[verifier::rlimit(100)]
    proof fn lemma_tree_visiting(entry: Self, before: Self, mid: Self, post: Self, v: int, w: int, p: int, k: int)
        requires
            before.inv(),
            before.visiting(entry, v, p, k),
            k < before.graph.edges(v).len(),
            before.graph.edges(v)[k] as int == w,
            0 <= w < before.n(),
            !before.is_visited(w),
            mid.inv(),
            Self::scc_post(before, mid, w),
            post.graph == mid.graph,
            post.stack == mid.stack,
            post.indices == mid.indices,
            post.onstack == mid.onstack,
            post.result == mid.result,
            post.curr_index == mid.curr_index,
            post.comps == mid.comps,
            post.done == mid.done,
            post.finished == mid.finished,
            post.lowlink@ == mid.lowlink@.update(
                v,
                if mid.lowlink@[v] < mid.lowlink@[w] {
                    mid.lowlink@[v]
                } else {
                    mid.lowlink@[w]
                },
            ),
            post.low_wit@ == (if mid.lowlink@[w] < mid.lowlink@[v] {
                mid.low_wit@.insert(v, mid.low_wit@[w])
            } else {
                mid.low_wit@
            }),
        ensures
            post.visiting(entry, v, p, k + 1),
    {
        reveal(SCC::inv);
        reveal(SCC::visiting);
        reveal(SCC::scc_post);
        let bl = before.stack@.len() as int;
        assert(mid.stack@.subrange(0, p) =~= entry.stack@) by {
            assert forall|i: int| 0 <= i < p implies mid.stack@[i] == entry.stack@[i] by {
                assert(mid.stack@.subrange(0, bl)[i] == mid.stack@[i]);
                assert(before.stack@.subrange(0, p)[i] == before.stack@[i]);
            }
        }
        assert(mid.stack@[p] == v) by {
            assert(mid.stack@.subrange(0, bl)[p] == mid.stack@[p]);
        }
        assert(before.is_visited(v));
        assert(mid.lowlink@[v] <= mid.indices@[v]) by {
            assert(mid.stack@[p] == v);
        }
        if !mid.done@.contains(w) {
            assert(mid.stack@[bl] == w);
            assert(mid.stacked(w));
        }
        assert forall|u: int| 0 <= u < entry.n() && #[trigger] entry.is_visited(u) implies post.is_visited(u)
            && post.indices@[u] == entry.indices@[u] && post.lowlink@[u] == entry.lowlink@[u] by {
            assert(before.is_visited(u));
            assert(before.lowlink@[u] == entry.lowlink@[u]);
            assert(mid.lowlink@[u] == before.lowlink@[u]);
            assert(u != v);
        }
        assert forall|u: int| #[trigger] entry.finished@.contains(u) implies post.finished@.contains(u) by {
            assert(before.finished@.contains(u));
        }
        assert forall|u: int| #[trigger] post.finished@.contains(u) implies entry.finished@.contains(u)
            || !entry.is_visited(u) by {
            if before.finished@.contains(u) {
            } else if entry.is_visited(u) {
                assert(before.is_visited(u));
            }
        }
        assert forall|u: int| #[trigger] entry.done@.contains(u) implies post.done@.contains(u) by {
            assert(before.done@.contains(u));
        }
        assert forall|u: int|
            0 <= u < entry.n() && #[trigger] post.is_visited(u) && !entry.is_visited(u) && u != v
                implies post.finished@.contains(u) by {
            assert(mid.is_visited(u));
            if before.is_visited(u) {
                assert(before.finished@.contains(u));
            }
        }
        assert(post.stack@.subrange(0, p) =~= entry.stack@);
        assert forall|q: int| p < q < post.stack@.len() implies !entry.is_visited(
            #[trigger] post.stack@[q] as int,
        ) && post.lowlink@[v] <= post.lowlink@[post.stack@[q] as int] by {
            if q < bl {
                assert(mid.stack@.subrange(0, bl)[q] == mid.stack@[q]);
                assert(post.stack@[q] == before.stack@[q]);
                assert(before.is_visited(before.stack@[q] as int));
            } else {
                assert(!before.is_visited(mid.stack@[q] as int));
            }
        }
        assert forall|q: int| p <= q < post.stack@.len() implies reaches(
            post.graph,
            v,
            #[trigger] post.stack@[q] as int,
        ) by {
            if q < bl {
                assert(mid.stack@.subrange(0, bl)[q] == mid.stack@[q]);
                assert(post.stack@[q] == before.stack@[q]);
            } else {
                lemma_reaches_edge(mid.graph, v, k);
                lemma_reaches_trans(mid.graph, v, w, mid.stack@[q] as int);
            }
        }
        assert forall|j: int| 0 <= j < k + 1 implies post.edge_ok(v, #[trigger] post.graph.edges(v)[j] as int) by {
            let wj = post.graph.edges(v)[j] as int;
            if j < k {
                assert(before.edge_ok(v, wj));
                if before.done@.contains(wj) {
                } else {
                    assert(before.is_visited(wj));
                    assert(mid.is_visited(wj));
                }
            }
        }
    }

    /// Visiting the edge `k` of `v` to a vertex `w` on the stack.
    #[verifier::spinoff_prover]
    #[verifier::rlimit(100)]
    proof fn lemma_back(entry: Self, mid: Self, post: Self, v: int, w: int, p: int, k: int)
        requires
            mid.inv(),
            mid.visiting(entry, v, p, k),
            k < mid.graph.edges(v).len(),
            mid.graph.edges(v)[k] as int == w,
            0 <= w < mid.n(),
            mid.is_visited(w),
            mid.onstack@[w],
            post.graph == mid.graph,
            post.stack == mid.stack,
            post.indices == mid.indices,
            post.onstack == mid.onstack,
            post.result == mid.result,
            post.curr_index == mid.curr_index,
            post.comps == mid.comps,
            post.done == mid.done,
            post.finished == mid.finished,
            post.lowlink@ == mid.lowlink@.update(
                v,
                if mid.lowlink@[v] < mid.indices@[w] {
                    mid.lowlink@[v]
                } else {
                    mid.indices@[w]
                },
            ),
            post.low_wit@ == (if mid.indices@[w] < mid.lowlink@[v] {
                mid.low_wit@.insert(v, w)
            } else {
                mid.low_wit@
            }),
        ensures
            post.inv(),
            post.visiting(entry, v, p, k + 1),
    {
        reveal(SCC::inv);
        reveal(SCC::visiting);
        assert(mid.stacked(w));
        let kw = choose|kw: int| 0 <= kw < mid.stack@.len() && #[trigger] mid.stack@[kw] == w;
        if kw > 0 {
            assert(mid.indices@[mid.stack@[0] as int] < mid.indices@[mid.stack@[kw] as int]);
        }
        assert(mid.lowlink@[v] <= mid.indices@[v]) by {
            assert(mid.stack@[p] == v);
        }
        assert(post.wit_ok(v)) by {
            if mid.indices@[w] < mid.lowlink@[v] {
                lemma_reaches_edge(mid.graph, v, k);
                assert(post.stack@[kw] == w);
            } else {
                assert(mid.wit_ok(mid.stack@[p] as int));
                let x = mid.low_wit@[v];
                let kx = choose|kx: int| 0 <= kx < mid.stack@.len() && #[trigger] mid.stack@[kx] == x;
                assert(post.stack@[kx] == x);
            }
        }
        assert forall|kk: int| 0 <= kk < post.stack@.len() implies post.indices@[
            post.stack@[0] as int] <= post.lowlink@[#[trigger] post.stack@[kk] as int]
            <= post.indices@[post.stack@[kk] as int] by {
            assert(mid.indices@[mid.stack@[0] as int] <= mid.lowlink@[mid.stack@[kk] as int]);
        }
        Self::lemma_set_lowlink(mid, post, v);
        assert forall|u: int| 0 <= u < entry.n() && #[trigger] entry.is_visited(u) implies post.is_visited(u)
            && post.indices@[u] == entry.indices@[u] && post.lowlink@[u] == entry.lowlink@[u] by {
            assert(mid.is_visited(u));
            assert(u != v);
        }
        assert forall|u: int|
            0 <= u < entry.n() && #[trigger] post.is_visited(u) && !entry.is_visited(u) && u != v
                implies post.finished@.contains(u) by {
            assert(mid.is_visited(u));
        }
        assert forall|q: int| p < q < post.stack@.len() implies !entry.is_visited(
            #[trigger] post.stack@[q] as int,
        ) && post.lowlink@[v] <= post.lowlink@[post.stack@[q] as int] by {
            assert(mid.stack@[q] == post.stack@[q]);
        }
        assert forall|q: int| p <= q < post.stack@.len() implies reaches(
            post.graph,
            v,
            #[trigger] post.stack@[q] as int,
        ) by {
            assert(mid.stack@[q] == post.stack@[q]);
        }
        assert forall|j: int| 0 <= j < k + 1 implies post.edge_ok(v, #[trigger] post.graph.edges(v)[j] as int) by {
            if j < k {
                assert(mid.edge_ok(v, mid.graph.edges(v)[j] as int));
            }
        }
    }

    /// Visiting the edge `k` of `v` to a vertex `w` already in a component.
    proof fn lemma_cross(entry: Self, s: Self, v: int, w: int, p: int, k: int)
        requires
            s.inv(),
            s.visiting(entry, v, p, k),
            k < s.graph.edges(v).len(),
            s.graph.edges(v)[k] as int == w,
            0 <= w < s.n(),
            s.is_visited(w),
            !s.onstack@[w],
        ensures
            s.visiting(entry, v, p, k + 1),
    {
        reveal(SCC::inv);
        reveal(SCC::visiting);
        assert(s.done@.contains(w));
    }

    /// Facts on the stack that the popping loop needs.
    proof fn lemma_stack_facts(entry: Self, s: Self, v: int, p: int)
        requires
            s.inv(),
            s.visiting(entry, v, p, s.graph.edges(v).len() as int),
        ensures
            0 <= p < s.stack@.len(),
            s.stack@[p] == v,
            forall|k: int| 0 <= k < s.stack@.len() ==> (#[trigger] s.stack@[k] as int) < s.n(),
            forall|k1: int, k2: int|
                0 <= k1 < s.stack@.len() && 0 <= k2 < s.stack@.len() && k1 != k2
                    ==> #[trigger] s.stack@[k1] != #[trigger] s.stack@[k2],
            p == 0 ==> s.indices@[v] == s.lowlink@[v],
    {
        reveal(SCC::inv);
        reveal(SCC::visiting);
        if p == 0 {
            assert(s.stack@[0] == v);
        }
    }

    /// Every vertex of the stack above `v`'s position reaches `v`, where `v`
    /// is a root: each reaches the witness of its lowlink, which lies above
    /// `v` with a smaller index.
    proof fn lemma_reaches_root(entry: Self, s: Self, v: int, p: int, q: int)
        requires
            s.inv(),
            s.visiting(entry, v, p, s.graph.edges(v).len() as int),
            s.indices@[v] == s.lowlink@[v],
            p <= q < s.stack@.len(),
        ensures
            reaches(s.graph, s.stack@[q] as int, v),
        decreases s.indices@[s.stack@[q] as int],
    {
        reveal(SCC::inv);
        reveal(SCC::visiting);
        let u = s.stack@[q] as int;
        if q == p {
            lemma_reaches_refl(s.graph, v);
        } else {
            assert(!entry.is_visited(u));
            assert(s.is_visited(u));
            assert(u != v);
            assert(s.finished@.contains(u));
            assert(s.wit_ok(u));
            let x = s.low_wit@[u];
            let kx = choose|kx: int| 0 <= kx < s.stack@.len() && #[trigger] s.stack@[kx] == x;
            if kx < p {
                assert(s.indices@[s.stack@[kx] as int] < s.indices@[s.stack@[p] as int]);
            }
            if kx > q {
                assert(s.indices@[s.stack@[q] as int] < s.indices@[s.stack@[kx] as int]);
            }
            assert(kx != q);
            Self::lemma_reaches_root(entry, s, v, p, kx);
            lemma_reaches_trans(s.graph, u, x, v);
        }
    }

    /// Popping the component of root `v` keeps the invariant.
    #[verifier::spinoff_prover]
    #[verifier::rlimit(100)]
    proof fn lemma_emit(entry: Self, pre: Self, post: Self, comp: Seq<int>, r: Vec<Data>, v: int, p: int)
        requires
            pre.inv(),
            pre.visiting(entry, v, p, pre.graph.edges(v).len() as int),
            pre.indices@[v] == pre.lowlink@[v],
            comp.len() == pre.stack@.len() - p,
            forall|i: int| 0 <= i < comp.len() ==> #[trigger] comp[i] == pre.stack@[pre.stack@.len() - 1 - i] as int,
            r@.len() == comp.len(),
            forall|i: int| 0 <= i < comp.len() ==> cloned(pre.graph.data(comp[i]), #[trigger] r@[i]),
            post.graph == pre.graph,
            post.stack@ == pre.stack@.subrange(0, p),
            post.indices@ == pre.indices@,
            post.lowlink@ == pre.lowlink@,
            post.onstack@.len() == pre.onstack@.len(),
            forall|u: int| 0 <= u < pre.n() ==> #[trigger] post.onstack@[u] == (pre.onstack@[u] && !comp.contains(u)),
            post.result@ == pre.result@.push(r),
            post.comps@ == pre.comps@.push(comp),
            post.done@ == pre.done@.union(comp.to_set()),
            post.finished@ == pre.finished@.insert(v),
            post.low_wit == pre.low_wit,
            post.curr_index == pre.curr_index,
        ensures
            post.inv(),
            Self::scc_post(entry, post, v),
    {
        reveal(SCC::inv);
        reveal(SCC::visiting);
        reveal(SCC::scc_post);
        let stack0 = pre.stack@;
        let done0 = pre.done@;
        assert forall|i: int| 0 <= i < comp.len() implies reaches(post.graph, #[trigger] comp[i], v) by {
            Self::lemma_reaches_root(entry, pre, v, p, pre.stack@.len() - 1 - i);
        }
        let sl = post.stack@.len() as int;
        let L = stack0.len() as int;
        assert(sl + comp.len() == L);
        assert(post.stack@ =~= entry.stack@) by {
            assert forall|i: int| 0 <= i < p implies post.stack@[i] == entry.stack@[i] by {
                assert(pre.stack@.subrange(0, p)[i] == pre.stack@[i]);
            }
        }
        // every element of the new component came off the stack
        assert forall|i: int| 0 <= i < comp.len() implies 0 <= #[trigger] comp[i] < post.n()
            && post.is_visited(comp[i]) && !done0.contains(comp[i]) by {
            let k = L - 1 - i;
            assert(pre.stack@[k] == stack0[k]);
        }
        assert(comp[comp.len() - 1] == v);
        assert(comp.to_set().contains(v));
        assert forall|u: int| 0 <= u < entry.n() && #[trigger] entry.is_visited(u) implies post.is_visited(u)
            && post.indices@[u] == entry.indices@[u] && post.lowlink@[u] == entry.lowlink@[u] by {
            assert(pre.is_visited(u));
        }
        assert forall|k: int| 0 <= k < post.stack@.len() implies 0 <= #[trigger] post.stack@[k]
            < post.n() && post.is_visited(post.stack@[k] as int) && !post.done@.contains(
            post.stack@[k] as int,
        ) by {
            assert(post.stack@[k] == stack0[k]);
            if comp.to_set().contains(post.stack@[k] as int) {
                let i = choose|i: int| 0 <= i < comp.len() && comp[i] == post.stack@[k] as int;
                assert(stack0[L - 1 - i] == stack0[k]);
            }
        }
        assert forall|k1: int, k2: int| 0 <= k1 < k2 < post.stack@.len() implies post.indices@[
            #[trigger] post.stack@[k1] as int] < post.indices@[#[trigger] post.stack@[k2] as int] by {
            assert(post.stack@[k1] == stack0[k1]);
            assert(post.stack@[k2] == stack0[k2]);
        }
        assert forall|k1: int, k2: int|
            0 <= k1 < post.stack@.len() && 0 <= k2 < post.stack@.len() && k1 != k2
                implies #[trigger] post.stack@[k1] != #[trigger] post.stack@[k2] by {
            assert(post.stack@[k1] == stack0[k1]);
            assert(post.stack@[k2] == stack0[k2]);
        }
        assert forall|k: int| 0 <= k < post.stack@.len() implies post.indices@[
            post.stack@[0] as int] <= post.lowlink@[#[trigger] post.stack@[k] as int]
            <= post.indices@[post.stack@[k] as int] by {
            assert(post.stack@[k] == stack0[k]);
            assert(post.stack@[0] == stack0[0]);
        }
        assert forall|u: int| 0 <= u < post.n() && #[trigger] post.is_visited(u) implies post.indices@[u]
            < post.curr_index && (post.done@.contains(u) || post.stacked(u)) && (post.onstack@[u]
            == !post.done@.contains(u)) by {
            assert(pre.is_visited(u));
            if comp.contains(u) {
                assert(comp.to_set().contains(u));
            } else if !done0.contains(u) {
                assert(pre.stacked(u));
                let k = choose|k: int| 0 <= k < pre.stack@.len() && #[trigger] pre.stack@[k] == u;
                if k >= p {
                    let i = L - 1 - k;
                    assert(comp[i] == u);
                }
                assert(post.stack@[k] == u);
                assert(!comp.to_set().contains(u));
            }
        }
        assert forall|c: int, i: int|
            0 <= c < post.comps@.len() && 0 <= i < post.comps@[c].len() implies post.done@.contains(
                #[trigger] post.comps@[c][i],
            ) by {
            if c == post.comps@.len() - 1 {
                assert(post.comps@[c] == comp);
                assert(comp.to_set().contains(comp[i]));
            } else {
                assert(post.comps@[c] == pre.comps@[c]);
            }
        }
        assert forall|u: int| #[trigger] post.done@.contains(u) implies 0 <= u < post.n()
            && post.is_visited(u) && listed(post.comps@, u) by {
            if !done0.contains(u) {
                assert(comp.to_set().contains(u));
                assert(comp.contains(u));
                let i = choose|i: int| 0 <= i < comp.len() && comp[i] == u;
                assert(post.comps@[post.comps@.len() - 1][i] == u);
            } else {
                let (c, i) = choose|c: int, i: int|
                    0 <= c < pre.comps@.len() && 0 <= i < pre.comps@[c].len()
                        && #[trigger] pre.comps@[c][i] == u;
                assert(post.comps@[c][i] == u);
            }
        }
        assert forall|c: int| 0 <= c < post.comps@.len() implies #[trigger] post.comps@[c].len() > 0 by {
            if c < post.comps@.len() - 1 {
                assert(post.comps@[c] == pre.comps@[c]);
            }
        }
        let cs = post.comps@;
        assert forall|c: int, i: int|
            0 <= c < cs.len() && 0 <= i < cs[c].len() implies 0 <= #[trigger] cs[c][i] < post.n() by {
            if c == cs.len() - 1 {
                assert(cs[c] == comp);
                assert(comp[i] == comp[i]);
            } else {
                assert(cs[c] == pre.comps@[c]);
            }
        }
        assert forall|c1: int, i1: int, c2: int, i2: int|
            0 <= c1 < cs.len() && 0 <= i1 < cs[c1].len() && 0 <= c2 < cs.len() && 0 <= i2
                < cs[c2].len() && (c1 != c2 || i1 != i2) implies #[trigger] cs[c1][i1]
                != #[trigger] cs[c2][i2] by {
            let last = cs.len() - 1;
            if c1 == last && c2 == last {
                assert(cs[c1] == comp);
                assert(comp[i1] == stack0[L - 1 - i1] as int);
                assert(comp[i2] == stack0[L - 1 - i2] as int);
            } else if c1 == last {
                assert(cs[c1] == comp);
                assert(cs[c2] == pre.comps@[c2]);
                assert(done0.contains(pre.comps@[c2][i2]));
                assert(comp[i1] == comp[i1]);
            } else if c2 == last {
                assert(cs[c2] == comp);
                assert(cs[c1] == pre.comps@[c1]);
                assert(done0.contains(pre.comps@[c1][i1]));
                assert(comp[i2] == comp[i2]);
            } else {
                assert(cs[c1] == pre.comps@[c1]);
                assert(cs[c2] == pre.comps@[c2]);
            }
        }
        let rs = post.result@;
        assert forall|c: int| 0 <= c < cs.len() implies #[trigger] rs[c]@.len() == cs[c].len() by {
            if c < cs.len() - 1 {
                assert(rs[c] == pre.result@[c]);
                assert(cs[c] == pre.comps@[c]);
            }
        }
        assert forall|c: int, i: int|
            0 <= c < cs.len() && 0 <= i < cs[c].len() implies cloned(
                post.graph.data(cs[c][i]),
                #[trigger] rs[c]@[i],
            ) by {
            if c < cs.len() - 1 {
                assert(rs[c] == pre.result@[c]);
                assert(cs[c] == pre.comps@[c]);
            }
        }
        // The members of the new component: `v` and vertices visited
        // since, all of whose visits have ended.
        assert forall|i: int| 0 <= i < comp.len() implies #[trigger] comp[i] == v
            || (pre.finished@.contains(comp[i]) && pre.lowlink@[v] <= pre.lowlink@[comp[i]]) by {
            let q = L - 1 - i;
            if q > p {
                assert(pre.stack@[q] == stack0[q]);
                assert(!entry.is_visited(pre.stack@[q] as int));
                assert(pre.is_visited(pre.stack@[q] as int));
            } else {
                assert(q == p);
            }
        }
        assert forall|u: int| #[trigger] post.finished@.contains(u) implies 0 <= u < post.n()
            && post.is_visited(u) by {
            if u != v {
                assert(pre.finished@.contains(u));
            }
        }
        assert forall|u: int| #[trigger] post.done@.contains(u) implies post.finished@.contains(u) by {
            if !done0.contains(u) {
                assert(comp.to_set().contains(u));
                let i = choose|i: int| 0 <= i < comp.len() && comp[i] == u;
                assert(comp[i] == v || pre.finished@.contains(comp[i]));
            }
        }
        // An edge from the new component stays inside it or reaches an
        // earlier component: a vertex below `v` on the stack would have
        // pulled `v`'s lowlink under its index.
        assert forall|i: int, j: int|
            0 <= i < comp.len() && 0 <= j < post.graph.edges(comp[i]).len() implies post.done@.contains(
                #[trigger] post.graph.edges(comp[i])[j] as int,
            ) by {
            let u = comp[i];
            let w = post.graph.edges(u)[j] as int;
            assert(comp[i] == v || (pre.finished@.contains(comp[i]) && pre.lowlink@[v]
                <= pre.lowlink@[comp[i]]));
            if u == v {
                assert(pre.edge_ok(v, pre.graph.edges(v)[j] as int));
            } else {
                assert(pre.finished@.contains(u));
                assert(!pre.done@.contains(u)) by {
                    let q = L - 1 - i;
                    assert(pre.stack@[q] == stack0[q]);
                }
                assert(pre.edge_ok(u, w));
            }
            if !done0.contains(w) {
                assert(pre.stacked(w));
                let kw = choose|kw: int| 0 <= kw < pre.stack@.len() && #[trigger] pre.stack@[kw] == w;
                if kw < p {
                    assert(pre.indices@[pre.stack@[kw] as int] < pre.indices@[pre.stack@[p] as int]);
                    assert(false);
                }
                let iw = L - 1 - kw;
                assert(comp[iw] == w);
                assert(comp.to_set().contains(w));
            }
        }
        assert forall|u: int, j: int|
            post.done@.contains(u) && 0 <= j < post.graph.edges(u).len() implies post.done@.contains(
                #[trigger] post.graph.edges(u)[j] as int,
            ) by {
            if !done0.contains(u) {
                assert(comp.to_set().contains(u));
                let i = choose|i: int| 0 <= i < comp.len() && comp[i] == u;
                assert(post.done@.contains(post.graph.edges(comp[i])[j] as int));
            }
        }
        assert forall|u: int| #[trigger]
            post.finished@.contains(u) && !post.done@.contains(u) implies post.lowlink@[u]
                < post.indices@[u] && forall|j: int|
                0 <= j < post.graph.edges(u).len() ==> post.edge_ok(
                    u,
                    #[trigger] post.graph.edges(u)[j] as int,
                ) by {
            assert(u != v);
            assert(pre.finished@.contains(u));
            assert(!done0.contains(u));
            assert forall|j: int| 0 <= j < post.graph.edges(u).len() implies post.edge_ok(
                u,
                #[trigger] post.graph.edges(u)[j] as int,
            ) by {
                let w = pre.graph.edges(u)[j] as int;
                assert(pre.edge_ok(u, w));
                if !done0.contains(w) {
                    let kw = choose|kw: int| 0 <= kw < pre.stack@.len() && #[trigger] pre.stack@[kw] == w;
                    if kw >= p {
                        let iw = L - 1 - kw;
                        assert(comp[iw] == w);
                        assert(comp.to_set().contains(w));
                    } else {
                        assert(post.stack@[kw] == w);
                    }
                }
            }
        }
        assert forall|c1: int, i1: int, j: int, c2: int, i2: int|
            #![trigger cs[c2][i2], post.graph.edges(cs[c1][i1])[j]]
            0 <= c1 < cs.len() && 0 <= i1 < cs[c1].len() && 0 <= j < post.graph.edges(
                cs[c1][i1],
            ).len() && 0 <= c2 < cs.len() && 0 <= i2 < cs[c2].len() && cs[c2][i2]
                == post.graph.edges(cs[c1][i1])[j] implies c2 <= c1 by {
            let last = cs.len() - 1;
            if c1 < last {
                assert(cs[c1] == pre.comps@[c1]);
                assert(done0.contains(cs[c1][i1]));
                assert(done0.contains(post.graph.edges(cs[c1][i1])[j] as int));
                if c2 == last {
                    assert(cs[c2] == comp);
                    assert(!done0.contains(comp[i2]));
                } else {
                    assert(cs[c2] == pre.comps@[c2]);
                }
            }
        }
        assert forall|u: int|
            0 <= u < entry.n() && #[trigger] post.is_visited(u) && !entry.is_visited(u)
                implies post.finished@.contains(u) by {
            assert(pre.is_visited(u));
        }

        assert forall|k: int| 0 <= k < post.stack@.len() implies post.wit_ok(#[trigger] post.stack@[k] as int) by {
            let u = post.stack@[k] as int;
            assert(post.stack@[k] == stack0[k]);
            assert(pre.wit_ok(u));
            let x = pre.low_wit@[u];
            let kx = choose|kx: int| 0 <= kx < stack0.len() && #[trigger] stack0[kx] == x;
            if kx > k {
                assert(pre.indices@[stack0[k] as int] < pre.indices@[stack0[kx] as int]);
            }
            assert(post.stack@[kx] == x);
        }
        assert forall|c: int, i1: int, i2: int|
            0 <= c < cs.len() && 0 <= i1 < cs[c].len() && 0 <= i2 < cs[c].len() implies reaches(
                post.graph,
                #[trigger] cs[c][i1],
                #[trigger] cs[c][i2],
            ) by {
            if c == cs.len() - 1 {
                assert(cs[c] == comp);
                let q2 = stack0.len() - 1 - i2;
                assert(reaches(pre.graph, v, stack0[q2] as int));
                lemma_reaches_trans(post.graph, comp[i1], v, comp[i2]);
            } else {
                assert(cs[c] == pre.comps@[c]);
            }
        }
        assert forall|q: int|
            entry.stack@.len() <= q < post.stack@.len() implies !entry.is_visited(#[trigger] post.stack@[q] as int)
                && post.lowlink@[v] <= post.lowlink@[post.stack@[q] as int] && reaches(
                post.graph,
                v,
                post.stack@[q] as int,
            ) by {
        }
        assert forall|u: int| #[trigger] entry.finished@.contains(u) implies post.finished@.contains(u) by {
            assert(pre.finished@.contains(u));
        }
        assert forall|u: int| #[trigger] post.finished@.contains(u) implies entry.finished@.contains(u)
            || !entry.is_visited(u) by {
            if u != v {
                assert(pre.finished@.contains(u));
            }
        }
        assert forall|u: int| #[trigger] entry.done@.contains(u) implies post.done@.contains(u) by {
            assert(pre.done@.contains(u));
        }
        assert(post.stack@.subrange(0, entry.stack@.len() as int) =~= entry.stack@);
        assert(post.lens());
    }

    /// Leaving `v` on the stack, its visit ended, keeps the invariant.
    #[verifier::spinoff_prover]
    #[verifier::rlimit(100)]
    proof fn lemma_finish(entry: Self, pre: Self, post: Self, v: int, p: int)
        requires
            pre.inv(),
            pre.visiting(entry, v, p, pre.graph.edges(v).len() as int),
            pre.indices@[v] != pre.lowlink@[v],
            post.graph == pre.graph,
            post.stack == pre.stack,
            post.indices == pre.indices,
            post.lowlink == pre.lowlink,
            post.onstack == pre.onstack,
            post.result == pre.result,
            post.comps == pre.comps,
            post.done == pre.done,
            post.low_wit == pre.low_wit,
            post.curr_index == pre.curr_index,
            post.finished@ == pre.finished@.insert(v),
        ensures
            post.inv(),
            Self::scc_post(entry, post, v),
    {
        reveal(SCC::inv);
        reveal(SCC::visiting);
        reveal(SCC::scc_post);
        if p == 0 {
            assert(pre.stack@[0] == v);
        }
        assert(pre.lowlink@[v] <= pre.indices@[v]) by {
            assert(pre.stack@[p] == v);
        }
        assert forall|u: int| #[trigger] post.finished@.contains(u) implies 0 <= u < post.n()
            && post.is_visited(u) by {
            if u != v {
                assert(pre.finished@.contains(u));
            }
        }
        assert forall|u: int| #[trigger] post.done@.contains(u) implies post.finished@.contains(u) by {
            assert(pre.finished@.contains(u));
        }
        assert forall|u: int| #[trigger]
            post.finished@.contains(u) && !post.done@.contains(u) implies post.lowlink@[u]
                < post.indices@[u] && forall|j: int|
                0 <= j < post.graph.edges(u).len() ==> post.edge_ok(
                    u,
                    #[trigger] post.graph.edges(u)[j] as int,
                ) by {
            if u == v {
                assert forall|j: int| 0 <= j < post.graph.edges(u).len() implies post.edge_ok(
                    u,
                    #[trigger] post.graph.edges(u)[j] as int,
                ) by {
                    assert(pre.edge_ok(v, pre.graph.edges(v)[j] as int));
                }
            } else {
                assert(pre.finished@.contains(u));
                assert forall|j: int| 0 <= j < post.graph.edges(u).len() implies post.edge_ok(
                    u,
                    #[trigger] post.graph.edges(u)[j] as int,
                ) by {
                    assert(pre.edge_ok(u, pre.graph.edges(u)[j] as int));
                }
            }
        }
        assert forall|u: int|
            0 <= u < entry.n() && #[trigger] post.is_visited(u) && !entry.is_visited(u)
                implies post.finished@.contains(u) by {
            assert(pre.is_visited(u));
        }
        assert forall|u: int| #[trigger] entry.finished@.contains(u) implies post.finished@.contains(u) by {
            assert(pre.finished@.contains(u));
        }
        assert forall|u: int| #[trigger] post.finished@.contains(u) implies entry.finished@.contains(u)
            || !entry.is_visited(u) by {
            if u != v {
                assert(pre.finished@.contains(u));
            }
        }
        assert forall|q: int|
            entry.stack@.len() <= q < post.stack@.len() implies !entry.is_visited(#[trigger] post.stack@[q] as int)
                && post.lowlink@[v] <= post.lowlink@[post.stack@[q] as int] && reaches(
                post.graph,
                v,
                post.stack@[q] as int,
            ) by {
            if q == p {
                assert(post.stack@[q] == v);
            }
        }
    }

    /// Computes the components of `graph` in the order Tarjan's algorithm
    /// closes them: every vertex is in exactly one of them, the vertices of
    /// each reach one another, and edges only lead to the same or an earlier
    /// component.
    pub fn run(graph: &Graph<K, Data>) -> (res: Vec<Vec<Data>>)
        requires
            graph.edges_in_range(),
            graph.num_vertices() < u32::MAX,
        ensures
            exists|comps: Seq<Seq<int>>|
                partition(comps, graph.num_vertices() as int) && topological(graph, comps)
                    && strongly_connected(graph, comps) && clones_of(graph, comps, res@),
    {
        let len = graph.vertices.len();
        let mut indices: Vec<usize> = Vec::with_capacity(len);
        let mut lowlink: Vec<usize> = Vec::with_capacity(len);
        let mut onstack: Vec<bool> = Vec::with_capacity(len);
        let stack: Vec<usize> = Vec::with_capacity(len);
        let result: Vec<Vec<Data>> = Vec::with_capacity(len);

        for _i in 0..len
            invariant
                indices@.len() == _i,
                lowlink@.len() == _i,
                onstack@.len() == _i,
                forall|v: int| 0 <= v < _i ==> #[trigger] indices@[v] == usize::MAX,
        {
            indices.push(usize::MAX);
            lowlink.push(usize::MAX);
            onstack.push(true);
        }
        let curr_index: usize = 0;
        let mut scc = SCC {
            graph,
            stack,
            indices,
            lowlink,
            onstack,
            result,
            curr_index,
            comps: Ghost(Seq::empty()),
            done: Ghost(Set::empty()),
            finished: Ghost(Set::empty()),
            low_wit: Ghost(Map::empty()),
        };
        proof {
            reveal(SCC::inv);
            assert(scc.visited_set() =~= Set::empty());
        }
        for v in 0..len
            invariant
                scc.inv(),
                scc.graph == graph,
                len == graph.num_vertices(),
                scc.stack@.len() == 0,
                forall|u: int| 0 <= u < v ==> #[trigger] scc.is_visited(u),
        {
            let ghost prev = scc;
            proof {
                scc.lemma_lens();
            }
            if !scc.visited(v) {
                scc.scc(v);
                proof {
                    reveal(SCC::scc_post);
                }
            }
            proof {
                assert forall|u: int| 0 <= u < v + 1 implies #[trigger] scc.is_visited(u) by {
                    if u < v {
                        assert(prev.is_visited(u));
                    }
                }
            }
        }
        proof {
            reveal(SCC::inv);
            assert forall|v: int| 0 <= v < graph.num_vertices() implies #[trigger] listed(
                scc.comps@,
                v,
            ) by {
                assert(scc.is_visited(v));
                if !scc.done@.contains(v) {
                    assert(scc.stacked(v));
                }
            }
            assert(partition(scc.comps@, graph.num_vertices() as int));
            assert(topological(graph, scc.comps@));
            assert(strongly_connected(graph, scc.comps@));
            assert(clones_of(graph, scc.comps@, scc.result@));
        }
        scc.result
    }

    fn visited(&self, v: usize) -> (b: bool)
        requires
            self.indices@.len() == self.n(),
            v < self.n(),
        ensures
            b == self.is_visited(v as int),
    {
        self.indices[v] != usize::MAX
    }

    fn scc(&mut self, v: usize)
        requires
            old(self).inv(),
            v < old(self).n(),
            !old(self).is_visited(v as int),
        ensures
            final(self).inv(),
            final(self).graph == old(self).graph,
            final(self).lens(),
            Self::scc_post(*old(self), *final(self), v as int),
        decreases old(self).n() - old(self).curr_index,
    {
        proof {
            self.lemma_lens();
            self.lemma_room(v as int);
        }
        let ghost entry = *self;
        let ghost p = self.stack@.len() as int;
        let index = self.curr_index;
        self.indices.set(v, index);
        self.lowlink.set(v, index);
        self.onstack.set(v, true);
        self.stack.push(v);
        self.curr_index = self.curr_index + 1;
        self.low_wit = Ghost(self.low_wit@.insert(v as int, v as int));
        proof {
            Self::lemma_enter(entry, *self, v as int);
        }

        let g = self.graph;
        let edges = &g.vertices[v].edges;
        let mut k: usize = 0;
        while k < edges.len()
            invariant
                self.inv(),
                self.lens(),
                self.visiting(entry, v as int, p, k as int),
                self.graph == g,
                g == entry.graph,
                entry == *old(self),
                edges@ == g.edges(v as int),
                v < self.n(),
                k <= edges@.len(),
                self.n() - self.curr_index < entry.n() - entry.curr_index,
            decreases edges@.len() - k,
        {
            let w = edges[k] as usize;
            assert(g.edges(v as int)[k as int] < g.num_vertices());
            let ghost before = *self;
            if !self.visited(w) {
                proof {
                    self.lemma_counter();
                }
                self.scc(w);
                proof {
                    self.lemma_lens();
                }
                let lw = self.lowlink[w];
                let lv = self.lowlink[v];
                let ghost mid = *self;
                self.lowlink.set(v, if lv < lw { lv } else { lw });
                self.low_wit = Ghost(
                    if lw < lv {
                        mid.low_wit@.insert(v as int, mid.low_wit@[w as int])
                    } else {
                        mid.low_wit@
                    },
                );
                proof {
                    Self::lemma_tree(entry, before, mid, *self, v as int, w as int, p, k as int);
                    self.lemma_lens();
                    self.lemma_counter();
                    reveal(SCC::visiting);
                }
            } else if self.onstack[w] {
                // Successor w is in stack S and hence in the current SCC
                // If w is not on stack, then (v, w) is a cross-edge in the
                //    DFS tree and must be ignored
                let iw = self.indices[w];
                let lv = self.lowlink[v];
                let ghost mid = *self;
                self.lowlink.set(v, if lv < iw { lv } else { iw });
                self.low_wit = Ghost(
                    if iw < lv {
                        mid.low_wit@.insert(v as int, w as int)
                    } else {
                        mid.low_wit@
                    },
                );
                proof {
                    Self::lemma_back(entry, mid, *self, v as int, w as int, p, k as int);
                    self.lemma_lens();
                }
            } else {
                proof {
                    Self::lemma_cross(entry, *self, v as int, w as int, p, k as int);
                }
            }
            k = k + 1;
        }

        //if v is a root node, pop the stack and generate an SCC
        proof {
            Self::lemma_stack_facts(entry, *self, v as int, p);
        }
        if self.indices[v] == self.lowlink[v] {
            let mut scc: Vec<Data> = Vec::new();
            let ghost comp: Seq<int> = Seq::empty();
            let ghost pre = *self;
            let ghost stack0 = pre.stack@;
            while self.stack.len() > 0
                invariant_except_break
                    self.stack@.len() > p,
                invariant
                    self.stack@.len() + comp.len() == stack0.len(),
                    self.stack@.len() >= p,
                    forall|i: int| 0 <= i < self.stack@.len() ==> #[trigger] self.stack@[i] == stack0[i],
                    forall|i: int| 0 <= i < comp.len() ==> #[trigger] comp[i] == stack0[stack0.len() - 1 - i] as int,
                    scc@.len() == comp.len(),
                    forall|i: int| 0 <= i < comp.len() ==> cloned(self.graph.data(comp[i]), #[trigger] scc@[i]),
                    self.graph == g,
                    self.graph.vertices@.len() == self.n(),
                    self.onstack@.len() == self.n(),
                    stack0 == pre.stack@,
                    stack0[p] == v,
                    0 <= p < stack0.len(),
                    forall|kk: int| 0 <= kk < stack0.len() ==> (#[trigger] stack0[kk] as int) < self.n(),
                    forall|k1: int, k2: int|
                        0 <= k1 < stack0.len() && 0 <= k2 < stack0.len() && k1 != k2
                            ==> #[trigger] stack0[k1] != #[trigger] stack0[k2],
                    pre.graph == g,
                    self.indices@ == pre.indices@,
                    self.lowlink@ == pre.lowlink@,
                    forall|u: int|
                        0 <= u < self.n() ==> #[trigger] self.onstack@[u] == (pre.onstack@[u]
                            && !comp.contains(u)),
                    self.done@ == pre.done@,
                    self.finished@ == pre.finished@,
                    self.comps@ == pre.comps@,
                    self.result@ == pre.result@,
                    self.low_wit@ == pre.low_wit@,
                    self.curr_index == pre.curr_index,
                    pre.onstack@.len() == self.n(),
                ensures
                    self.stack@.len() == p,
                    comp.len() == stack0.len() - p,
                decreases self.stack@.len(),
            {
                let w = self.stack.pop().unwrap();
                let ghost comp0 = comp;
                proof {
                    assert(w == stack0[stack0.len() - 1 - comp.len()]);
                    comp = comp.push(w as int);
                }
                self.onstack.set(w, false);
                proof {
                    assert forall|u: int| 0 <= u < self.n() implies #[trigger] self.onstack@[u] == (
                    pre.onstack@[u] && !comp.contains(u)) by {
                        if comp0.contains(u) {
                            let i = choose|i: int| 0 <= i < comp0.len() && comp0[i] == u;
                            assert(comp[i] == u);
                        }
                        if comp.contains(u) && u != w {
                            let i = choose|i: int| 0 <= i < comp.len() && comp[i] == u;
                            assert(i < comp0.len());
                            assert(comp0[i] == u);
                        }
                        if u == w {
                            assert(comp[comp.len() - 1] == u);
                        }
                    }
                }
                scc.push(self.graph.vertices[w].data.clone());
                if w == v {
                    proof {
                        let kw = stack0.len() - comp.len();
                        assert(stack0[kw] == stack0[p]);
                    }
                    break;
                }
            }
            let ghost r = scc;
            self.result.push(scc);
            self.comps = Ghost(self.comps@.push(comp));
            self.done = Ghost(self.done@.union(comp.to_set()));
            self.finished = Ghost(self.finished@.insert(v as int));
            proof {
                assert(self.stack@ =~= pre.stack@.subrange(0, p));
                Self::lemma_emit(entry, pre, *self, comp, r, v as int, p);
            }
        } else {
            let ghost pre = *self;
            self.finished = Ghost(self.finished@.insert(v as int));
            proof {
                Self::lemma_finish(entry, pre, *self, v as int, p);
            }
        }
    }
}

} // verus!
