//! The graph abstract data type: vertex and edge storage, the mutation API,
//! and adjacency queries.
//!
//! Vertices are kept in a vector sorted by ascending id; in parallel, each
//! vertex owns the sorted list of its outgoing arcs. The well-formedness
//! predicate [`Graph::wf`] ties the two together and carries the three data
//! invariants: undirected graphs store both mirror arcs with equal weights,
//! an arc carries a weight exactly when the graph is weighted, and every
//! arc's endpoints exist as vertices.
//!
//! Contracts speak about the abstraction [`GraphModel`]: a map from vertex id
//! to optional label, a map from arc (source, target) to optional weight, and
//! the three creation-time flags.

use vstd::prelude::*;

use crate::graph_errors::GraphOperationError;
use crate::weight::Weight;

verus! {

/// A vertex: identified by `id`, optionally carrying a free-text label.
#[derive(Clone, Debug, PartialEq)]
pub struct Vertex {
    pub id: i32,
    pub label: Option<String>,
}

/// A directed arc, stored with its source vertex: the target `to` and an
/// optional weight. Within one vertex's adjacency list arcs are identified by
/// `to` alone: there is at most one arc to any given target.
#[derive(Clone, Copy, Debug, PartialEq, Eq, Structural)]
pub struct Edge {
    pub to: i32,
    pub weight: Option<Weight>,
}

impl Edge {
    pub fn new(to: i32, weight: Option<Weight>) -> (e: Edge)
        ensures
            e.to == to,
            e.weight == weight,
    {
        Edge { to, weight }
    }
}

/// The mathematical abstraction of a graph: vertex ids mapped to their
/// optional labels, arcs mapped to their optional weights, and the three
/// flags fixed at creation.
#[verifier::ext_equal]
pub struct GraphModel {
    pub is_directed: bool,
    pub is_weighted: bool,
    pub is_float_weighted: bool,
    pub verts: Map<int, Option<Seq<char>>>,
    pub edges: Map<(int, int), Option<int>>,
}

impl GraphModel {
    pub open spec fn empty(is_directed: bool, is_weighted: bool, is_float_weighted: bool) -> GraphModel {
        GraphModel {
            is_directed,
            is_weighted,
            is_float_weighted,
            verts: Map::empty(),
            edges: Map::empty(),
        }
    }

    pub open spec fn has_vertex(self, id: int) -> bool {
        self.verts.dom().contains(id)
    }

    pub open spec fn has_arc(self, a: int, b: int) -> bool {
        self.edges.dom().contains((a, b))
    }

    /// The graph after a vertex is added (no arcs are touched).
    pub open spec fn with_vertex(self, id: int, label: Option<Seq<char>>) -> GraphModel {
        GraphModel { verts: self.verts.insert(id, label), ..self }
    }

    /// The graph after a vertex is removed together with every arc incident
    /// to it, in either direction.
    pub open spec fn without_vertex(self, id: int) -> GraphModel {
        GraphModel {
            verts: self.verts.remove(id),
            edges: Map::new(
                |p: (int, int)| self.edges.dom().contains(p) && p.0 != id && p.1 != id,
                |p: (int, int)| self.edges[p],
            ),
            ..self
        }
    }

    /// The graph after a single arc is inserted.
    pub open spec fn with_arc(self, a: int, b: int, w: Option<int>) -> GraphModel {
        GraphModel { edges: self.edges.insert((a, b), w), ..self }
    }

    /// The graph after an edge is inserted: one arc when directed, the arc
    /// and its mirror when undirected.
    pub open spec fn with_edge(self, a: int, b: int, w: Option<int>) -> GraphModel {
        if self.is_directed {
            self.with_arc(a, b, w)
        } else {
            self.with_arc(a, b, w).with_arc(b, a, w)
        }
    }

    /// The graph after an edge is removed: one arc when directed, the arc
    /// and its mirror when undirected.
    pub open spec fn without_edge(self, a: int, b: int) -> GraphModel {
        if self.is_directed {
            GraphModel { edges: self.edges.remove((a, b)), ..self }
        } else {
            GraphModel { edges: self.edges.remove((a, b)).remove((b, a)), ..self }
        }
    }
}

/// Vertex ids strictly increase along the vector.
pub open spec fn vertex_ids_sorted(s: Seq<Vertex>) -> bool {
    forall|k: int, l: int| 0 <= k < l < s.len() ==> (#[trigger] s[k]).id < (#[trigger] s[l]).id
}

/// Arc targets strictly increase along one adjacency list.
pub open spec fn edge_row_sorted(r: Seq<Edge>) -> bool {
    forall|m: int, n: int| 0 <= m < n < r.len() ==> (#[trigger] r[m]).to < (#[trigger] r[n]).to
}

/// Every arc has its mirror, carrying the same weight.
pub open spec fn model_sym(m: GraphModel) -> bool {
    forall|a: int, b: int| #[trigger] m.edges.dom().contains((a, b)) ==> m.edges.dom().contains(
        (b, a),
    ) && m.edges[(b, a)] == m.edges[(a, b)]
}

/// Whether the adjacency list holds an arc to target `b`.
pub open spec fn row_has(r: Seq<Edge>, b: int) -> bool {
    exists|m: int| 0 <= m < r.len() && (#[trigger] r[m]).to as int == b
}

/// The position of the arc to target `b` in the adjacency list.
pub open spec fn row_at(r: Seq<Edge>, b: int) -> int {
    choose|m: int| 0 <= m < r.len() && (#[trigger] r[m]).to as int == b
}

/// In a sorted adjacency list the arc to a given target is unique, so
/// `row_at` is the one index holding it.
pub proof fn lemma_row_at(r: Seq<Edge>, b: int)
    requires
        edge_row_sorted(r),
        row_has(r, b),
    ensures
        0 <= row_at(r, b) < r.len(),
        r[row_at(r, b)].to as int == b,
        forall|m: int| 0 <= m < r.len() && (#[trigger] r[m]).to as int == b ==> m == row_at(r, b),
{
    let m0 = row_at(r, b);
    assert(0 <= m0 < r.len() && r[m0].to as int == b);
    assert forall|m: int| 0 <= m < r.len() && (#[trigger] r[m]).to as int == b implies m == m0 by {
        if m < m0 {
            assert(r[m].to < r[m0].to);
        } else if m > m0 {
            assert(r[m0].to < r[m].to);
        }
    }
}

/// The graph: vertices sorted by id, each with its sorted adjacency list,
/// and the flags fixed at creation.
#[derive(Clone, Debug)]
pub struct Graph {
    pub vertices: Vec<Vertex>,
    pub adj: Vec<Vec<Edge>>,
    pub is_directed: bool,
    pub is_weighted: bool,
    pub is_float_weighted: bool,
}

impl Graph {
    pub open spec fn nv(self) -> int {
        self.vertices@.len() as int
    }

    pub open spec fn vid(self, k: int) -> int {
        self.vertices@[k].id as int
    }

    /// The adjacency list of the vertex stored at position `k`.
    pub open spec fn row(self, k: int) -> Seq<Edge> {
        self.adj@[k]@
    }

    pub open spec fn has_vid(self, id: int) -> bool {
        exists|k: int| 0 <= k < self.nv() && #[trigger] self.vid(k) == id
    }

    /// The position at which the vertex with the given id is stored.
    pub open spec fn vindex(self, id: int) -> int {
        choose|k: int| 0 <= k < self.nv() && #[trigger] self.vid(k) == id
    }

    pub open spec fn has_arc_g(self, a: int, b: int) -> bool {
        self.has_vid(a) && row_has(self.row(self.vindex(a)), b)
    }

    pub open spec fn arc_w(self, a: int, b: int) -> Option<int> {
        self.row(self.vindex(a))[row_at(self.row(self.vindex(a)), b)].weight.deep_view()
    }

    /// The storage shape and the local data invariants: parallel vectors,
    /// both sorted, every arc's target an existing vertex, and a weight on an
    /// arc exactly when the graph is weighted.
    pub open spec fn wf_basic(self) -> bool {
        &&& self.adj@.len() == self.vertices@.len()
        &&& vertex_ids_sorted(self.vertices@)
        &&& (forall|k: int| 0 <= k < self.nv() ==> edge_row_sorted(#[trigger] self.row(k)))
        &&& (forall|k: int, m: int|
            0 <= k < self.nv() && 0 <= m < self.row(k).len() ==> self.has_vid(
                (#[trigger] self.row(k)[m]).to as int,
            ))
        &&& (forall|k: int, m: int|
            0 <= k < self.nv() && 0 <= m < self.row(k).len() ==> ((#[trigger] self.row(
                k,
            )[m]).weight is Some <==> self.is_weighted))
    }

    /// Well-formedness: the storage invariants, and, for an undirected graph,
    /// the mirror of every arc stored with the same weight.
    pub open spec fn wf(self) -> bool {
        self.wf_basic() && (!self.is_directed ==> model_sym(self@))
    }
}

/// In a sorted vertex vector the vertex with a given id is unique, so
/// `vindex` is the one position holding it.
pub proof fn lemma_vindex(g: Graph, id: int)
    requires
        vertex_ids_sorted(g.vertices@),
        g.has_vid(id),
    ensures
        0 <= g.vindex(id) < g.nv(),
        g.vid(g.vindex(id)) == id,
        forall|k: int| 0 <= k < g.nv() && #[trigger] g.vid(k) == id ==> k == g.vindex(id),
{
    let k0 = g.vindex(id);
    assert(0 <= k0 < g.nv() && g.vid(k0) == id);
    assert forall|k: int| 0 <= k < g.nv() && #[trigger] g.vid(k) == id implies k == k0 by {
        if k < k0 {
            assert(g.vertices@[k].id < g.vertices@[k0].id);
        } else if k > k0 {
            assert(g.vertices@[k0].id < g.vertices@[k].id);
        }
    }
}

impl View for Graph {
    type V = GraphModel;

    open spec fn view(&self) -> GraphModel {
        GraphModel {
            is_directed: self.is_directed,
            is_weighted: self.is_weighted,
            is_float_weighted: self.is_float_weighted,
            verts: Map::new(
                |id: int| self.has_vid(id),
                |id: int| self.vertices@[self.vindex(id)].label.deep_view(),
            ),
            edges: Map::new(
                |p: (int, int)| self.has_arc_g(p.0, p.1),
                |p: (int, int)| self.arc_w(p.0, p.1),
            ),
        }
    }
}

impl Graph {
    /// Creates an empty graph with its flags fixed for good.
    pub fn new(is_directed: bool, is_weighted: bool, is_float_weighted: bool) -> (g: Graph)
        ensures
            g.wf(),
            g@ == GraphModel::empty(is_directed, is_weighted, is_float_weighted),
    {
        let g = Graph {
            vertices: Vec::new(),
            adj: Vec::new(),
            is_directed,
            is_weighted,
            is_float_weighted,
        };
        proof {
            assert(g@.verts =~= GraphModel::empty(is_directed, is_weighted, is_float_weighted).verts);
            assert(g@.edges =~= GraphModel::empty(is_directed, is_weighted, is_float_weighted).edges);
            assert(g@ =~= GraphModel::empty(is_directed, is_weighted, is_float_weighted));
        }
        g
    }

    pub fn get_is_directed(&self) -> (r: bool)
        ensures
            r == self@.is_directed,
    {
        self.is_directed
    }

    pub fn get_is_weighted(&self) -> (r: bool)
        ensures
            r == self@.is_weighted,
    {
        self.is_weighted
    }

    pub fn get_is_float_weights(&self) -> (r: bool)
        ensures
            r == self@.is_float_weighted,
    {
        self.is_float_weighted
    }

    /// All vertices, in ascending id order.
    pub fn get_vertices(&self) -> (r: &Vec<Vertex>)
        ensures
            r@ == self.vertices@,
    {
        &self.vertices
    }

    /// Finds the storage position of the vertex with the given id.
    fn find_vidx(&self, id: i32) -> (r: Option<usize>)
        requires
            vertex_ids_sorted(self.vertices@),
        ensures
            match r {
                Some(k) => 0 <= k < self.vertices@.len() && self.vid(k as int) == id as int
                    && self.has_vid(id as int) && self.vindex(id as int) == k as int,
                None => !self.has_vid(id as int),
            },
    {
        let n = self.vertices.len();
        let mut k: usize = 0;
        while k < n
            invariant
                n == self.vertices@.len(),
                k <= n,
                vertex_ids_sorted(self.vertices@),
                forall|j: int| 0 <= j < k ==> #[trigger] self.vid(j) != id as int,
            decreases n - k,
        {
            if self.vertices[k].id == id {
                proof {
                    assert(self.vid(k as int) == id as int);
                    assert(self.has_vid(id as int));
                    lemma_vindex(*self, id as int);
                }
                return Some(k);
            }
            k = k + 1;
        }
        None
    }

    /// Finds the sorted position at which a vertex with the given id belongs,
    /// and whether it is already there.
    fn find_vpos(&self, id: i32) -> (p: usize)
        requires
            vertex_ids_sorted(self.vertices@),
        ensures
            p <= self.vertices@.len(),
            forall|j: int| 0 <= j < p ==> #[trigger] self.vid(j) < id as int,
            self.has_vid(id as int) <==> (p < self.vertices@.len() && self.vid(p as int)
                == id as int),
            !self.has_vid(id as int) ==> forall|j: int|
                p <= j < self.vertices@.len() ==> #[trigger] self.vid(j) > id as int,
    {
        let n = self.vertices.len();
        let mut p: usize = 0;
        while p < n
            invariant
                n == self.vertices@.len(),
                p <= n,
                vertex_ids_sorted(self.vertices@),
                forall|j: int| 0 <= j < p ==> #[trigger] self.vid(j) < id as int,
            decreases n - p,
        {
            if self.vertices[p].id >= id {
                proof {
                    assert forall|j: int| p < j < self.vertices@.len() implies #[trigger] self.vid(
                        j,
                    ) > id as int by {
                        assert(self.vertices@[p as int].id < self.vertices@[j].id);
                    }
                    if self.vid(p as int) == id as int {
                        assert(self.has_vid(id as int));
                    } else {
                        assert forall|j: int| 0 <= j < self.vertices@.len() implies #[trigger] self.vid(
                            j,
                        ) != id as int by {}
                        assert(!self.has_vid(id as int));
                    }
                }
                return p;
            }
            p = p + 1;
        }
        proof {
            assert(!self.has_vid(id as int));
        }
        p
    }

    /// Returns the vertex with the given id, or `VertexNotFound`.
    pub fn get_vertex(&self, i: i32) -> (r: Result<&Vertex, GraphOperationError>)
        requires
            self.wf(),
        ensures
            match r {
                Ok(v) => self@.has_vertex(i as int) && v.id == i && v.label.deep_view()
                    == self@.verts[i as int],
                Err(e) => e == GraphOperationError::VertexNotFound && !self@.has_vertex(i as int),
            },
    {
        match self.find_vidx(i) {
            Some(k) => Ok(&self.vertices[k]),
            None => Err(GraphOperationError::VertexNotFound),
        }
    }

    /// Inserts a fresh vertex at its sorted position.
    fn insert_vertex_at(&mut self, p: usize, v: Vertex)
        requires
            old(self).wf(),
            p <= old(self).nv(),
            forall|j: int| 0 <= j < p ==> #[trigger] old(self).vid(j) < v.id as int,
            forall|j: int| p <= j < old(self).nv() ==> #[trigger] old(self).vid(j) > v.id as int,
        ensures
            final(self).wf(),
            final(self)@ == old(self)@.with_vertex(v.id as int, v.label.deep_view()),
    {
        let ghost g0 = *self;
        let ghost vv = v;
        self.vertices.insert(p, v);
        self.adj.insert(p, Vec::new());
        proof {
            lemma_insert_vertex(g0, *self, p as int, vv);
        }
    }

    /// Adds a vertex, or fails with `VertexExists` when its id is taken.
    /// A failed call leaves the graph unchanged.
    pub fn add_vertex(&mut self, v: Vertex) -> (r: Result<(), GraphOperationError>)
        requires
            old(self).wf(),
        ensures
            final(self).wf(),
            match r {
                Ok(()) => !old(self)@.has_vertex(v.id as int) && final(self)@ == old(
                    self,
                )@.with_vertex(v.id as int, v.label.deep_view()),
                Err(e) => e == GraphOperationError::VertexExists && old(self)@.has_vertex(
                    v.id as int,
                ) && *final(self) == *old(self),
            },
    {
        let p = self.find_vpos(v.id);
        if p < self.vertices.len() && self.vertices[p].id == v.id {
            return Err(GraphOperationError::VertexExists);
        }
        self.insert_vertex_at(p, v);
        Ok(())
    }
}

/// After inserting a fresh vertex at its sorted position, together with an
/// empty adjacency list, the graph is well formed again and its model gains
/// exactly that vertex.
proof fn lemma_insert_vertex(g0: Graph, g1: Graph, p: int, v: Vertex)
    requires
        g0.wf(),
        0 <= p <= g0.nv(),
        forall|j: int| 0 <= j < p ==> #[trigger] g0.vid(j) < v.id as int,
        forall|j: int| p <= j < g0.nv() ==> #[trigger] g0.vid(j) > v.id as int,
        g1.vertices@ == g0.vertices@.insert(p, v),
        g1.adj@.len() == g0.adj@.len() + 1,
        g1.row(p) == Seq::<Edge>::empty(),
        forall|k: int| 0 <= k < p ==> #[trigger] g1.adj@[k] == g0.adj@[k],
        forall|k: int| p < k < g1.adj@.len() ==> #[trigger] g1.adj@[k] == g0.adj@[k - 1],
        g1.is_directed == g0.is_directed,
        g1.is_weighted == g0.is_weighted,
        g1.is_float_weighted == g0.is_float_weighted,
    ensures
        g1.wf(),
        g1@ == g0@.with_vertex(v.id as int, v.label.deep_view()),
{
    g0.vertices@.insert_ensures(p, v);
    assert(g1.nv() == g0.nv() + 1);
    assert(forall|k: int| 0 <= k < p ==> #[trigger] g1.vid(k) == g0.vid(k));
    assert(g1.vid(p) == v.id as int);
    assert forall|k: int| p < k < g1.nv() implies #[trigger] g1.vid(k) == g0.vid(k - 1) by {
        assert(g1.vertices@[(k - 1) + 1] == g0.vertices@[k - 1]);
    }
    // the vertex vector stays sorted
    assert forall|k: int, l: int| 0 <= k < l < g1.nv() implies (#[trigger] g1.vertices@[k]).id < (
    #[trigger] g1.vertices@[l]).id by {
        if l < p {
            assert(g0.vertices@[k].id < g0.vertices@[l].id);
        } else if l == p {
            assert(g0.vid(k) < v.id as int);
        } else if k < p {
            assert(g0.vid(k) < v.id as int);
            if k != l - 1 {
            }
            assert(g0.vid(l - 1) > v.id as int);
        } else if k == p {
            assert(g0.vid(l - 1) > v.id as int);
        } else {
            assert(g0.vertices@[k - 1].id < g0.vertices@[l - 1].id);
        }
    }
    // which ids exist, before and after
    assert forall|id2: int| #[trigger] g1.has_vid(id2) <==> (g0.has_vid(id2) || id2
        == v.id as int) by {
        if g1.has_vid(id2) {
            let k = choose|k: int| 0 <= k < g1.nv() && #[trigger] g1.vid(k) == id2;
            if k < p {
                assert(g0.vid(k) == id2);
            } else if k == p {
            } else {
                assert(g0.vid(k - 1) == id2);
            }
        }
        if g0.has_vid(id2) {
            let k = choose|k: int| 0 <= k < g0.nv() && #[trigger] g0.vid(k) == id2;
            if k < p {
                assert(g1.vid(k) == id2);
            } else {
                assert(g1.vid(k + 1) == id2);
            }
        }
        if id2 == v.id as int {
            assert(g1.vid(p) == id2);
        }
    }
    // positions and rows of the old vertices carry over
    assert forall|id2: int| g0.has_vid(id2) implies {
        &&& #[trigger] g1.vindex(id2) == if g0.vindex(id2) < p {
            g0.vindex(id2)
        } else {
            g0.vindex(id2) + 1
        }
        &&& g1.row(g1.vindex(id2)) == g0.row(g0.vindex(id2))
        &&& g1.vertices@[g1.vindex(id2)] == g0.vertices@[g0.vindex(id2)]
    } by {
        lemma_vindex(g0, id2);
        lemma_vindex(g1, id2);
        let k0 = g0.vindex(id2);
        if k0 < p {
            assert(g1.vid(k0) == id2);
        } else {
            assert(g1.vid(k0 + 1) == id2);
        }
    }
    assert(g1.vindex(v.id as int) == p) by {
        lemma_vindex(g1, v.id as int);
    }
    // the arcs, their sources resolved through the new positions, are unchanged
    assert forall|a: int, b: int| #[trigger] g1.has_arc_g(a, b) <==> g0.has_arc_g(a, b) by {
        if a == v.id as int {
            assert(g1.row(g1.vindex(a)) == Seq::<Edge>::empty());
            assert(!row_has(g1.row(g1.vindex(a)), b));
            assert(!g0.has_vid(a));
        }
    }
    assert forall|a: int, b: int| g1.has_arc_g(a, b) implies #[trigger] g1.arc_w(a, b)
        == g0.arc_w(a, b) by {
        assert(g1.row(g1.vindex(a)) == g0.row(g0.vindex(a)));
    }
    // well-formedness of the result
    assert forall|k: int| 0 <= k < g1.nv() implies edge_row_sorted(#[trigger] g1.row(k)) by {
        if k < p {
            assert(g1.row(k) == g0.row(k));
        } else if k > p {
            assert(g1.row(k) == g0.row(k - 1));
        }
    }
    assert forall|k: int, m: int| 0 <= k < g1.nv() && 0 <= m < g1.row(k).len() implies {
        &&& g1.has_vid((#[trigger] g1.row(k)[m]).to as int)
        &&& (g1.row(k)[m].weight is Some <==> g1.is_weighted)
    } by {
        if k < p {
            assert(g1.row(k) == g0.row(k));
        } else if k > p {
            assert(g1.row(k) == g0.row(k - 1));
        }
    }
    assert(g1.wf_basic());
    // the model gains exactly the new vertex
    assert forall|id2: int| g1@.verts.dom().contains(id2) implies #[trigger] g1@.verts[id2]
        == g0@.verts.insert(v.id as int, v.label.deep_view())[id2] by {
        if id2 == v.id as int {
            assert(g1.vertices@[g1.vindex(id2)] == v);
        }
    }
    assert(g1@.verts =~= g0@.verts.insert(v.id as int, v.label.deep_view()));
    assert(g1@.edges =~= g0@.edges);
    assert(g1@ =~= g0@.with_vertex(v.id as int, v.label.deep_view()));
    assert(g1.wf());
}

/// `vindex` inverts `vid` at every position of a sorted vertex vector.
pub proof fn lemma_vindex_self(g: Graph)
    requires
        vertex_ids_sorted(g.vertices@),
    ensures
        forall|k: int| 0 <= k < g.nv() ==> #[trigger] g.vindex(g.vid(k)) == k,
{
    assert forall|k: int| 0 <= k < g.nv() implies #[trigger] g.vindex(g.vid(k)) == k by {
        assert(g.has_vid(g.vid(k)));
        lemma_vindex(g, g.vid(k));
    }
}

/// Finds the sorted position at which an arc to the given target belongs in
/// one adjacency list, and whether it is already there.
fn find_row_pos(r: &Vec<Edge>, to: i32) -> (p: usize)
    requires
        edge_row_sorted(r@),
    ensures
        p <= r@.len(),
        forall|m: int| 0 <= m < p ==> (#[trigger] r@[m]).to < to,
        row_has(r@, to as int) <==> (p < r@.len() && r@[p as int].to == to),
        !row_has(r@, to as int) ==> forall|m: int|
            p <= m < r@.len() ==> (#[trigger] r@[m]).to > to,
{
    let n = r.len();
    let mut p: usize = 0;
    while p < n
        invariant
            n == r@.len(),
            p <= n,
            edge_row_sorted(r@),
            forall|m: int| 0 <= m < p ==> (#[trigger] r@[m]).to < to,
        decreases n - p,
    {
        if r[p].to >= to {
            proof {
                assert forall|m: int| p < m < r@.len() implies (#[trigger] r@[m]).to > to by {
                    assert(r@[p as int].to < r@[m].to);
                }
                if r@[p as int].to == to {
                    assert(row_has(r@, to as int));
                } else {
                    assert forall|m: int| 0 <= m < r@.len() implies (#[trigger] r@[m]).to as int
                        != to as int by {}
                    assert(!row_has(r@, to as int));
                }
            }
            return p;
        }
        p = p + 1;
    }
    proof {
        assert(!row_has(r@, to as int));
    }
    p
}

/// After inserting into one adjacency list an arc that was not there, at its
/// sorted position, the storage invariants hold again and the model gains
/// exactly that arc.
proof fn lemma_insert_arc(g0: Graph, g1: Graph, k: int, p: int, e: Edge)
    requires
        g0.wf_basic(),
        0 <= k < g0.nv(),
        0 <= p <= g0.row(k).len(),
        forall|m: int| 0 <= m < p ==> (#[trigger] g0.row(k)[m]).to < e.to,
        forall|m: int| p <= m < g0.row(k).len() ==> (#[trigger] g0.row(k)[m]).to > e.to,
        g0.has_vid(e.to as int),
        e.weight is Some <==> g0.is_weighted,
        g1.vertices@ == g0.vertices@,
        g1.adj@.len() == g0.adj@.len(),
        forall|k2: int| 0 <= k2 < g1.adj@.len() && k2 != k ==> #[trigger] g1.adj@[k2]
            == g0.adj@[k2],
        g1.row(k) == g0.row(k).insert(p, e),
        g1.is_directed == g0.is_directed,
        g1.is_weighted == g0.is_weighted,
        g1.is_float_weighted == g0.is_float_weighted,
    ensures
        g1.wf_basic(),
        g1@ == g0@.with_arc(g0.vid(k), e.to as int, e.weight.deep_view()),
{
    g0.row(k).insert_ensures(p, e);
    let a0 = g0.vid(k);
    lemma_vindex_self(g0);
    lemma_vindex_self(g1);
    assert(forall|j: int| 0 <= j < g1.nv() ==> #[trigger] g1.vid(j) == g0.vid(j));
    assert forall|id: int| #[trigger] g1.has_vid(id) <==> g0.has_vid(id) by {
        if g1.has_vid(id) {
            let j = choose|j: int| 0 <= j < g1.nv() && #[trigger] g1.vid(j) == id;
            assert(g0.vid(j) == id);
        }
        if g0.has_vid(id) {
            let j = choose|j: int| 0 <= j < g0.nv() && #[trigger] g0.vid(j) == id;
            assert(g1.vid(j) == id);
        }
    }
    assert forall|id: int| g0.has_vid(id) implies #[trigger] g1.vindex(id) == g0.vindex(id) by {
        lemma_vindex(g0, id);
        lemma_vindex(g1, id);
        assert(g1.vid(g0.vindex(id)) == id);
    }
    // sortedness of the changed row
    assert forall|m: int, n: int| 0 <= m < n < g1.row(k).len() implies (#[trigger] g1.row(
        k,
    )[m]).to < (#[trigger] g1.row(k)[n]).to by {
        if n < p {
            assert(g0.row(k)[m].to < g0.row(k)[n].to);
        } else if n == p {
            assert(g0.row(k)[m].to < e.to);
        } else if m < p {
            assert(g0.row(k)[m].to < e.to);
            assert(g0.row(k)[n - 1].to > e.to);
        } else if m == p {
            assert(g0.row(k)[n - 1].to > e.to);
        } else {
            assert(g0.row(k)[m - 1].to < g0.row(k)[n - 1].to);
        }
    }
    // which targets the changed row reaches
    assert forall|b: int| #[trigger] row_has(g1.row(k), b) <==> (row_has(g0.row(k), b) || b
        == e.to as int) by {
        if row_has(g1.row(k), b) {
            let m = choose|m: int| 0 <= m < g1.row(k).len() && (#[trigger] g1.row(k)[m]).to as int
                == b;
            if m < p {
                assert(g0.row(k)[m].to as int == b);
            } else if m > p {
                assert(g0.row(k)[m - 1].to as int == b);
            }
        }
        if row_has(g0.row(k), b) {
            let m = choose|m: int| 0 <= m < g0.row(k).len() && (#[trigger] g0.row(k)[m]).to as int
                == b;
            if m < p {
                assert(g1.row(k)[m].to as int == b);
            } else {
                assert(g1.row(k)[m + 1].to as int == b);
            }
        }
        if b == e.to as int {
            assert(g1.row(k)[p].to as int == b);
        }
    }
    // entries for other targets in the changed row are unchanged
    assert forall|b: int| row_has(g0.row(k), b) && b != e.to as int implies g1.row(k)[row_at(
        g1.row(k),
        b,
    )] == g0.row(k)[row_at(g0.row(k), b)] by {
        lemma_row_at(g0.row(k), b);
        lemma_row_at(g1.row(k), b);
        let m1 = row_at(g1.row(k), b);
        if m1 < p {
            assert(g0.row(k)[m1].to as int == b);
        } else {
            assert(m1 != p);
            assert(g0.row(k)[m1 - 1].to as int == b);
        }
    }
    assert(g1.row(k)[row_at(g1.row(k), e.to as int)] == e) by {
        assert(row_has(g1.row(k), e.to as int));
        lemma_row_at(g1.row(k), e.to as int);
        assert(g1.row(k)[p].to as int == e.to as int);
    }
    // arcs elsewhere are untouched; assemble the arc map
    assert forall|a: int, b: int| #[trigger] g1.has_arc_g(a, b) <==> (g0.has_arc_g(a, b) || (a
        == a0 && b == e.to as int)) by {
        if g0.has_vid(a) {
            lemma_vindex(g0, a);
            if a == a0 {
                assert(g0.vindex(a) == k);
            } else {
                assert(g0.vindex(a) != k);
                assert(g1.row(g1.vindex(a)) == g0.row(g0.vindex(a)));
            }
        }
        assert(g0.has_vid(a0));
    }
    assert forall|a: int, b: int| g1.has_arc_g(a, b) implies #[trigger] g1.arc_w(a, b) == (if a
        == a0 && b == e.to as int {
        e.weight.deep_view()
    } else {
        g0.arc_w(a, b)
    }) by {
        lemma_vindex(g0, a);
        if a == a0 {
            assert(g0.vindex(a) == k);
            if b != e.to as int {
                assert(g1.row(k)[row_at(g1.row(k), b)] == g0.row(k)[row_at(g0.row(k), b)]);
            }
        } else {
            assert(g1.row(g1.vindex(a)) == g0.row(g0.vindex(a)));
        }
    }
    assert forall|k2: int| 0 <= k2 < g1.nv() implies edge_row_sorted(#[trigger] g1.row(k2)) by {
        if k2 != k {
            assert(g1.row(k2) == g0.row(k2));
        }
    }
    assert forall|k2: int, m: int| 0 <= k2 < g1.nv() && 0 <= m < g1.row(k2).len() implies g1.has_vid(
        (#[trigger] g1.row(k2)[m]).to as int,
    ) && (g1.row(k2)[m].weight is Some <==> g1.is_weighted) by {
        if k2 != k {
            assert(g1.row(k2) == g0.row(k2));
            assert(g0.has_vid(g0.row(k2)[m].to as int));
        } else if m < p {
            assert(g1.row(k)[m] == g0.row(k)[m]);
            assert(g0.has_vid(g0.row(k)[m].to as int));
        } else if m > p {
            assert(g1.row(k)[m] == g0.row(k)[m - 1]);
            assert(g0.has_vid(g0.row(k)[m - 1].to as int));
        }
    }
    assert(g1.wf_basic());
    assert(g1@.verts =~= g0@.verts);
    assert(g1@.edges =~= g0@.edges.insert((a0, e.to as int), e.weight.deep_view()));
    assert(g1@ =~= g0@.with_arc(a0, e.to as int, e.weight.deep_view()));
}

/// Two graphs over the same vertex vector agree on which ids exist and
/// where they are stored.
proof fn lemma_same_vertices(g0: Graph, g1: Graph)
    requires
        vertex_ids_sorted(g0.vertices@),
        g1.vertices@ == g0.vertices@,
    ensures
        forall|id: int| #[trigger] g1.has_vid(id) <==> g0.has_vid(id),
        forall|id: int| g0.has_vid(id) ==> #[trigger] g1.vindex(id) == g0.vindex(id),
{
    assert(forall|j: int| 0 <= j < g1.nv() ==> #[trigger] g1.vid(j) == g0.vid(j));
    assert forall|id: int| #[trigger] g1.has_vid(id) <==> g0.has_vid(id) by {
        if g1.has_vid(id) {
            let j = choose|j: int| 0 <= j < g1.nv() && #[trigger] g1.vid(j) == id;
            assert(g0.vid(j) == id);
        }
        if g0.has_vid(id) {
            let j = choose|j: int| 0 <= j < g0.nv() && #[trigger] g0.vid(j) == id;
            assert(g1.vid(j) == id);
        }
    }
    assert forall|id: int| g0.has_vid(id) implies #[trigger] g1.vindex(id) == g0.vindex(id) by {
        lemma_vindex(g0, id);
        lemma_vindex(g1, id);
        assert(g1.vid(g0.vindex(id)) == id);
    }
}

impl Graph {
    /// Inserts a fresh arc at its sorted position within the adjacency list
    /// of the vertex stored at position `k`.
    fn insert_arc_at(&mut self, k: usize, p: usize, e: Edge)
        requires
            old(self).wf_basic(),
            k < old(self).nv(),
            p <= old(self).row(k as int).len(),
            forall|m: int| 0 <= m < p ==> (#[trigger] old(self).row(k as int)[m]).to < e.to,
            forall|m: int|
                p <= m < old(self).row(k as int).len() ==> (#[trigger] old(self).row(
                    k as int,
                )[m]).to > e.to,
            old(self).has_vid(e.to as int),
            e.weight is Some <==> old(self).is_weighted,
        ensures
            final(self).wf_basic(),
            final(self)@ == old(self)@.with_arc(
                old(self).vid(k as int),
                e.to as int,
                e.weight.deep_view(),
            ),
            final(self).vertices@ == old(self).vertices@,
            final(self).adj@.len() == old(self).adj@.len(),
            forall|k2: int|
                0 <= k2 < old(self).adj@.len() && k2 != k ==> #[trigger] final(self).adj@[k2]
                    == old(self).adj@[k2],
            final(self).row(k as int) == old(self).row(k as int).insert(p as int, e),
            final(self).is_directed == old(self).is_directed,
            final(self).is_weighted == old(self).is_weighted,
            final(self).is_float_weighted == old(self).is_float_weighted,
    {
        let ghost g0 = *self;
        let row = &mut self.adj[k];
        row.insert(p, e);
        proof {
            lemma_insert_arc(g0, *self, k as int, p as int, e);
        }
    }

    /// Returns the outgoing arcs of the given vertex, in ascending target
    /// order, or `VertexNotFound`.
    pub fn get_edge_list(&self, from: i32) -> (r: Result<&Vec<Edge>, GraphOperationError>)
        requires
            self.wf(),
        ensures
            match r {
                Ok(row) => {
                    &&& self@.has_vertex(from as int)
                    &&& row@ == self.row(self.vindex(from as int))
                    &&& edge_row_sorted(row@)
                    &&& (forall|m: int|
                        0 <= m < row@.len() ==> self@.edges.dom().contains(
                            (from as int, (#[trigger] row@[m]).to as int),
                        ) && self@.edges[(from as int, row@[m].to as int)]
                            == row@[m].weight.deep_view())
                    &&& (forall|b: int| self@.has_arc(from as int, b) ==> row_has(row@, b))
                },
                Err(e) => e == GraphOperationError::VertexNotFound && !self@.has_vertex(
                    from as int,
                ),
            },
    {
        match self.find_vidx(from) {
            Some(k) => {
                proof {
                    lemma_vindex(*self, from as int);
                    assert(edge_row_sorted(self.row(k as int)));
                    assert forall|m: int| 0 <= m < self.row(k as int).len() implies {
                        &&& self@.edges.dom().contains(
                            (from as int, (#[trigger] self.row(k as int)[m]).to as int),
                        )
                        &&& self@.edges[(from as int, self.row(k as int)[m].to as int)] == self.row(
                            k as int,
                        )[m].weight.deep_view()
                    } by {
                        let b = self.row(k as int)[m].to as int;
                        assert(row_has(self.row(k as int), b));
                        assert(self.has_arc_g(from as int, b));
                        lemma_row_at(self.row(k as int), b);
                        assert(row_at(self.row(k as int), b) == m);
                    }
                }
                Ok(&self.adj[k])
            },
            None => Err(GraphOperationError::VertexNotFound),
        }
    }

    /// Returns the arc `from -> to`, or `VertexNotFound` when either
    /// endpoint is no vertex, or `EdgeNotFound` when both exist and the arc
    /// is absent.
    pub fn get_edge(&self, from: i32, to: i32) -> (r: Result<&Edge, GraphOperationError>)
        requires
            self.wf(),
        ensures
            match r {
                Ok(e) => self@.has_arc(from as int, to as int) && e.to == to
                    && e.weight.deep_view() == self@.edges[(from as int, to as int)],
                Err(err) => match err {
                    GraphOperationError::VertexNotFound => !self@.has_vertex(from as int)
                        || !self@.has_vertex(to as int),
                    GraphOperationError::EdgeNotFound => self@.has_vertex(from as int)
                        && self@.has_vertex(to as int) && !self@.has_arc(from as int, to as int),
                    _ => false,
                },
            },
    {
        let k = match self.find_vidx(from) {
            Some(k) => k,
            None => {
                return Err(GraphOperationError::VertexNotFound);
            },
        };
        if self.find_vidx(to).is_none() {
            return Err(GraphOperationError::VertexNotFound);
        }
        proof {
            lemma_vindex(*self, from as int);
            assert(edge_row_sorted(self.row(k as int)));
        }
        let p = find_row_pos(&self.adj[k], to);
        if p < self.adj[k].len() && self.adj[k][p].to == to {
            proof {
                assert(row_has(self.row(k as int), to as int));
                assert(self.has_arc_g(from as int, to as int));
                lemma_row_at(self.row(k as int), to as int);
                assert(row_at(self.row(k as int), to as int) == p as int);
            }
            Ok(&self.adj[k][p])
        } else {
            proof {
                assert(!row_has(self.row(k as int), to as int));
            }
            Err(GraphOperationError::EdgeNotFound)
        }
    }

    /// Adds an edge, enforcing the weight flag, the existence of both
    /// endpoints, and uniqueness; an undirected graph receives the mirror arc
    /// in the same call. A failed call leaves the graph unchanged.
    pub fn add_edge(&mut self, from: i32, e: Edge) -> (r: Result<(), GraphOperationError>)
        requires
            old(self).wf(),
        ensures
            final(self).wf(),
            match r {
                Ok(()) => {
                    &&& (e.weight is Some <==> old(self)@.is_weighted)
                    &&& old(self)@.has_vertex(from as int)
                    &&& old(self)@.has_vertex(e.to as int)
                    &&& !old(self)@.has_arc(from as int, e.to as int)
                    &&& (old(self)@.is_directed || !old(self)@.has_arc(e.to as int, from as int))
                    &&& final(self)@ == old(self)@.with_edge(
                        from as int,
                        e.to as int,
                        e.weight.deep_view(),
                    )
                },
                Err(err) => *final(self) == *old(self) && match err {
                    GraphOperationError::WeightedEdgeInUnweightedGraph => e.weight is Some && !old(
                        self,
                    )@.is_weighted,
                    GraphOperationError::UnweightedEdgeInWeightedGraph => e.weight is None && old(
                        self,
                    )@.is_weighted,
                    GraphOperationError::SomeVerticesNotFound => (e.weight is Some <==> old(
                        self,
                    )@.is_weighted) && (!old(self)@.has_vertex(from as int) || !old(
                        self,
                    )@.has_vertex(e.to as int)),
                    GraphOperationError::EdgeExists => (e.weight is Some <==> old(
                        self,
                    )@.is_weighted) && old(self)@.has_vertex(from as int) && old(
                        self,
                    )@.has_vertex(e.to as int) && (old(self)@.has_arc(from as int, e.to as int)
                        || (!old(self)@.is_directed && old(self)@.has_arc(
                        e.to as int,
                        from as int,
                    ))),
                    _ => false,
                },
            },
    {
        if e.weight.is_some() && !self.is_weighted {
            return Err(GraphOperationError::WeightedEdgeInUnweightedGraph);
        }
        if e.weight.is_none() && self.is_weighted {
            return Err(GraphOperationError::UnweightedEdgeInWeightedGraph);
        }
        let kf = match self.find_vidx(from) {
            Some(k) => k,
            None => {
                return Err(GraphOperationError::SomeVerticesNotFound);
            },
        };
        let kt = match self.find_vidx(e.to) {
            Some(k) => k,
            None => {
                return Err(GraphOperationError::SomeVerticesNotFound);
            },
        };
        proof {
            lemma_vindex(*self, from as int);
            lemma_vindex(*self, e.to as int);
            assert(edge_row_sorted(self.row(kf as int)));
            assert(edge_row_sorted(self.row(kt as int)));
        }
        let pf = find_row_pos(&self.adj[kf], e.to);
        if pf < self.adj[kf].len() && self.adj[kf][pf].to == e.to {
            proof {
                assert(row_has(self.row(kf as int), e.to as int));
                assert(self.has_arc_g(from as int, e.to as int));
            }
            return Err(GraphOperationError::EdgeExists);
        }
        proof {
            assert(!row_has(self.row(kf as int), e.to as int));
            assert(!self@.has_arc(from as int, e.to as int));
        }
        if self.is_directed {
            let ghost g0 = *self;
            self.insert_arc_at(kf, pf, e);
            proof {
                assert(self@ == g0@.with_edge(from as int, e.to as int, e.weight.deep_view()));
                assert(self.wf());
            }
            Ok(())
        } else {
            let pr = find_row_pos(&self.adj[kt], from);
            if pr < self.adj[kt].len() && self.adj[kt][pr].to == from {
                proof {
                    assert(row_has(self.row(kt as int), from as int));
                    assert(self.has_arc_g(e.to as int, from as int));
                }
                return Err(GraphOperationError::EdgeExists);
            }
            proof {
                assert(!row_has(self.row(kt as int), from as int));
                assert(!self@.has_arc(e.to as int, from as int));
            }
            let ghost g0 = *self;
            let f = from;
            let t = e.to;
            if f == t {
                self.insert_arc_at(kf, pf, e);
                proof {
                    assert(self@.edges =~= g0@.with_edge(
                        f as int,
                        t as int,
                        e.weight.deep_view(),
                    ).edges);
                    assert(self@ =~= g0@.with_edge(f as int, t as int, e.weight.deep_view()));
                    lemma_add_edge_sym(g0@, self@, f as int, t as int, e.weight.deep_view());
                    assert(self.wf());
                }
            } else {
                let mirror = Edge { to: f, weight: e.weight };
                self.insert_arc_at(kt, pr, mirror);
                proof {
                    lemma_same_vertices(g0, *self);
                    assert(self.row(kf as int) == g0.row(kf as int));
                }
                self.insert_arc_at(kf, pf, e);
                proof {
                    assert(self@.edges =~= g0@.with_edge(
                        f as int,
                        t as int,
                        e.weight.deep_view(),
                    ).edges);
                    assert(self@ =~= g0@.with_edge(f as int, t as int, e.weight.deep_view()));
                    lemma_add_edge_sym(g0@, self@, f as int, t as int, e.weight.deep_view());
                    assert(self.wf());
                }
            }
            Ok(())
        }
    }
}

/// Inserting an edge together with its mirror keeps the symmetry of an
/// undirected graph.
proof fn lemma_add_edge_sym(m0: GraphModel, m1: GraphModel, a: int, b: int, w: Option<int>)
    requires
        model_sym(m0),
        !m0.edges.dom().contains((a, b)),
        !m0.edges.dom().contains((b, a)),
        m1.edges == m0.edges.insert((a, b), w).insert((b, a), w),
    ensures
        model_sym(m1),
{
    assert forall|x: int, y: int| #[trigger] m1.edges.dom().contains((x, y)) implies m1.edges.dom().contains(
        (y, x),
    ) && m1.edges[(y, x)] == m1.edges[(x, y)] by {
        if (x == a && y == b) || (x == b && y == a) {
        } else {
            assert(m0.edges.dom().contains((x, y)));
            assert(m0.edges.dom().contains((y, x)));
            assert((y, x) != (a, b) && (y, x) != (b, a));
        }
    }
}

/// After removing one arc from one adjacency list, the storage invariants
/// hold again and the model loses exactly that arc.
proof fn lemma_remove_arc(g0: Graph, g1: Graph, k: int, p: int)
    requires
        g0.wf_basic(),
        0 <= k < g0.nv(),
        0 <= p < g0.row(k).len(),
        g1.vertices@ == g0.vertices@,
        g1.adj@.len() == g0.adj@.len(),
        forall|k2: int| 0 <= k2 < g1.adj@.len() && k2 != k ==> #[trigger] g1.adj@[k2]
            == g0.adj@[k2],
        g1.row(k) == g0.row(k).remove(p),
        g1.is_directed == g0.is_directed,
        g1.is_weighted == g0.is_weighted,
        g1.is_float_weighted == g0.is_float_weighted,
    ensures
        g1.wf_basic(),
        g1@ == (GraphModel {
            edges: g0@.edges.remove((g0.vid(k), g0.row(k)[p].to as int)),
            ..g0@
        }),
{
    g0.row(k).remove_ensures(p);
    let a0 = g0.vid(k);
    let b0 = g0.row(k)[p].to as int;
    lemma_same_vertices(g0, g1);
    lemma_vindex_self(g0);
    assert(row_has(g0.row(k), b0));
    lemma_row_at(g0.row(k), b0);
    assert(row_at(g0.row(k), b0) == p);
    // sortedness of the changed row
    assert forall|m: int, n: int| 0 <= m < n < g1.row(k).len() implies (#[trigger] g1.row(
        k,
    )[m]).to < (#[trigger] g1.row(k)[n]).to by {
        if n < p {
            assert(g0.row(k)[m].to < g0.row(k)[n].to);
        } else if m < p {
            assert(g0.row(k)[m].to < g0.row(k)[n + 1].to);
        } else {
            assert(g0.row(k)[m + 1].to < g0.row(k)[n + 1].to);
        }
    }
    // which targets the changed row reaches
    assert forall|b: int| #[trigger] row_has(g1.row(k), b) <==> (row_has(g0.row(k), b) && b
        != b0) by {
        if row_has(g1.row(k), b) {
            let m = choose|m: int| 0 <= m < g1.row(k).len() && (#[trigger] g1.row(k)[m]).to as int
                == b;
            if m < p {
                assert(g0.row(k)[m].to as int == b);
                assert(m != p);
            } else {
                assert(g0.row(k)[m + 1].to as int == b);
                assert(m + 1 != p);
            }
        }
        if row_has(g0.row(k), b) && b != b0 {
            let m = choose|m: int| 0 <= m < g0.row(k).len() && (#[trigger] g0.row(k)[m]).to as int
                == b;
            assert(m != p);
            if m < p {
                assert(g1.row(k)[m].to as int == b);
            } else {
                assert(g1.row(k)[m - 1].to as int == b);
            }
        }
    }
    // entries for the other targets are unchanged
    assert forall|b: int| row_has(g1.row(k), b) implies g1.row(k)[row_at(g1.row(k), b)]
        == g0.row(k)[row_at(g0.row(k), b)] by {
        lemma_row_at(g0.row(k), b);
        lemma_row_at(g1.row(k), b);
        let m1 = row_at(g1.row(k), b);
        if m1 < p {
            assert(g0.row(k)[m1].to as int == b);
        } else {
            assert(g0.row(k)[m1 + 1].to as int == b);
        }
    }
    // arcs elsewhere are untouched; assemble the arc map
    assert forall|a: int, b: int| #[trigger] g1.has_arc_g(a, b) <==> (g0.has_arc_g(a, b) && !(a
        == a0 && b == b0)) by {
        if g0.has_vid(a) {
            lemma_vindex(g0, a);
            if a == a0 {
                assert(g0.vindex(a) == k);
            } else {
                assert(g0.vindex(a) != k);
                assert(g1.row(g1.vindex(a)) == g0.row(g0.vindex(a)));
            }
        }
    }
    assert forall|a: int, b: int| g1.has_arc_g(a, b) implies #[trigger] g1.arc_w(a, b)
        == g0.arc_w(a, b) by {
        lemma_vindex(g0, a);
        if a == a0 {
            assert(g1.row(k)[row_at(g1.row(k), b)] == g0.row(k)[row_at(g0.row(k), b)]);
        } else {
            assert(g1.row(g1.vindex(a)) == g0.row(g0.vindex(a)));
        }
    }
    assert forall|k2: int| 0 <= k2 < g1.nv() implies edge_row_sorted(#[trigger] g1.row(k2)) by {
        if k2 != k {
            assert(g1.row(k2) == g0.row(k2));
        }
    }
    assert forall|k2: int, m: int| 0 <= k2 < g1.nv() && 0 <= m < g1.row(k2).len() implies g1.has_vid(
        (#[trigger] g1.row(k2)[m]).to as int,
    ) && (g1.row(k2)[m].weight is Some <==> g1.is_weighted) by {
        if k2 != k {
            assert(g1.row(k2) == g0.row(k2));
            assert(g0.has_vid(g0.row(k2)[m].to as int));
        } else if m < p {
            assert(g1.row(k)[m] == g0.row(k)[m]);
            assert(g0.has_vid(g0.row(k)[m].to as int));
        } else {
            assert(g1.row(k)[m] == g0.row(k)[m + 1]);
            assert(g0.has_vid(g0.row(k)[m + 1].to as int));
        }
    }
    assert(g1.wf_basic());
    assert(g1@.verts =~= g0@.verts);
    assert(g1@.edges =~= g0@.edges.remove((a0, b0)));
    assert(g1@ =~= (GraphModel { edges: g0@.edges.remove((a0, b0)), ..g0@ }));
}

/// Removing an edge together with its mirror keeps the symmetry of an
/// undirected graph.
proof fn lemma_remove_edge_sym(m0: GraphModel, m1: GraphModel, a: int, b: int)
    requires
        model_sym(m0),
        m1.edges == m0.edges.remove((a, b)).remove((b, a)),
    ensures
        model_sym(m1),
{
    assert forall|x: int, y: int| #[trigger] m1.edges.dom().contains((x, y)) implies m1.edges.dom().contains(
        (y, x),
    ) && m1.edges[(y, x)] == m1.edges[(x, y)] by {
        assert(m0.edges.dom().contains((x, y)));
        assert(m0.edges.dom().contains((y, x)));
        assert((x, y) != (a, b) && (x, y) != (b, a));
        assert((y, x) != (a, b) && (y, x) != (b, a));
    }
}

impl Graph {
    /// Removes the arc at position `p` of the adjacency list of the vertex
    /// stored at position `k`.
    fn remove_arc_at(&mut self, k: usize, p: usize)
        requires
            old(self).wf_basic(),
            k < old(self).nv(),
            p < old(self).row(k as int).len(),
        ensures
            final(self).wf_basic(),
            final(self)@ == (GraphModel {
                edges: old(self)@.edges.remove(
                    (old(self).vid(k as int), old(self).row(k as int)[p as int].to as int),
                ),
                ..old(self)@
            }),
            final(self).vertices@ == old(self).vertices@,
            final(self).adj@.len() == old(self).adj@.len(),
            forall|k2: int|
                0 <= k2 < old(self).adj@.len() && k2 != k ==> #[trigger] final(self).adj@[k2]
                    == old(self).adj@[k2],
            final(self).row(k as int) == old(self).row(k as int).remove(p as int),
            final(self).is_directed == old(self).is_directed,
            final(self).is_weighted == old(self).is_weighted,
            final(self).is_float_weighted == old(self).is_float_weighted,
    {
        let ghost g0 = *self;
        let row = &mut self.adj[k];
        let _ = row.remove(p);
        proof {
            lemma_remove_arc(g0, *self, k as int, p as int);
        }
    }

    /// Removes an edge, and in an undirected graph its mirror with it.
    /// A failed call leaves the graph unchanged.
    pub fn remove_edge(&mut self, from: i32, to: i32) -> (r: Result<(), GraphOperationError>)
        requires
            old(self).wf(),
        ensures
            final(self).wf(),
            match r {
                Ok(()) => {
                    &&& old(self)@.has_vertex(from as int)
                    &&& old(self)@.has_vertex(to as int)
                    &&& old(self)@.has_arc(from as int, to as int)
                    &&& final(self)@ == old(self)@.without_edge(from as int, to as int)
                },
                Err(err) => *final(self) == *old(self) && match err {
                    GraphOperationError::SomeVerticesNotFound => !old(self)@.has_vertex(
                        from as int,
                    ) || !old(self)@.has_vertex(to as int),
                    GraphOperationError::EdgeNotFound => old(self)@.has_vertex(from as int) && old(
                        self,
                    )@.has_vertex(to as int) && !old(self)@.has_arc(from as int, to as int),
                    _ => false,
                },
            },
    {
        let kf = match self.find_vidx(from) {
            Some(k) => k,
            None => {
                return Err(GraphOperationError::SomeVerticesNotFound);
            },
        };
        let kt = match self.find_vidx(to) {
            Some(k) => k,
            None => {
                return Err(GraphOperationError::SomeVerticesNotFound);
            },
        };
        proof {
            lemma_vindex(*self, from as int);
            lemma_vindex(*self, to as int);
            assert(edge_row_sorted(self.row(kf as int)));
        }
        let pf = find_row_pos(&self.adj[kf], to);
        if pf >= self.adj[kf].len() || self.adj[kf][pf].to != to {
            proof {
                assert(!row_has(self.row(kf as int), to as int));
                assert(!self@.has_arc(from as int, to as int));
            }
            return Err(GraphOperationError::EdgeNotFound);
        }
        proof {
            assert(row_has(self.row(kf as int), to as int));
            assert(self.has_arc_g(from as int, to as int));
        }
        let ghost g0 = *self;
        self.remove_arc_at(kf, pf);
        if !self.is_directed && from != to {
            proof {
                lemma_same_vertices(g0, *self);
                assert(g0@.edges.dom().contains((from as int, to as int)));
                assert(g0@.edges.dom().contains((to as int, from as int)));
                assert(row_has(g0.row(g0.vindex(to as int)), from as int));
                assert(self.row(kt as int) == g0.row(kt as int));
                assert(edge_row_sorted(self.row(kt as int)));
            }
            let pr = find_row_pos(&self.adj[kt], from);
            proof {
                assert(row_has(self.row(kt as int), from as int));
            }
            self.remove_arc_at(kt, pr);
            proof {
                assert(self@.edges == g0@.edges.remove((from as int, to as int)).remove(
                    (to as int, from as int),
                ));
                assert(self@ =~= g0@.without_edge(from as int, to as int));
                lemma_remove_edge_sym(g0@, self@, from as int, to as int);
                assert(self.wf());
            }
        } else {
            proof {
                if self.is_directed {
                    assert(self@ =~= g0@.without_edge(from as int, to as int));
                } else {
                    assert(self@.edges =~= g0@.edges.remove((from as int, to as int)).remove(
                        (to as int, from as int),
                    ));
                    assert(self@ =~= g0@.without_edge(from as int, to as int));
                    lemma_remove_edge_sym(g0@, self@, from as int, to as int);
                }
                assert(self.wf());
            }
        }
        Ok(())
    }

    /// Removes the arc to target `t` from the adjacency list of the vertex
    /// stored at position `k`, when there is one.
    fn strip_arc(&mut self, k: usize, t: i32)
        requires
            old(self).wf_basic(),
            k < old(self).nv(),
        ensures
            final(self).wf_basic(),
            final(self)@ == (GraphModel {
                edges: old(self)@.edges.remove((old(self).vid(k as int), t as int)),
                ..old(self)@
            }),
            final(self).vertices@ == old(self).vertices@,
            final(self).is_directed == old(self).is_directed,
            final(self).is_weighted == old(self).is_weighted,
            final(self).is_float_weighted == old(self).is_float_weighted,
            final(self).adj@.len() == old(self).adj@.len(),
    {
        proof {
            assert(edge_row_sorted(self.row(k as int)));
            lemma_vindex_self(*self);
        }
        let p = find_row_pos(&self.adj[k], t);
        if p < self.adj[k].len() && self.adj[k][p].to == t {
            proof {
                assert(self.row(k as int)[p as int].to == t);
            }
            self.remove_arc_at(k, p);
        } else {
            proof {
                assert(!row_has(self.row(k as int), t as int));
                assert(!self.has_arc_g(self.vid(k as int), t as int));
                assert(!self@.edges.dom().contains((self.vid(k as int), t as int)));
                assert(self@.edges =~= self@.edges.remove((self.vid(k as int), t as int)));
                assert(self@ =~= (GraphModel {
                    edges: self@.edges.remove((self.vid(k as int), t as int)),
                    ..self@
                }));
            }
        }
    }
}

/// After removing a vertex whose id no remaining arc targets, together with
/// its adjacency list, the storage invariants hold again; the model loses
/// that vertex and every arc leaving it.
proof fn lemma_remove_vertex_entry(g0: Graph, g1: Graph, idx: int)
    requires
        g0.wf_basic(),
        0 <= idx < g0.nv(),
        forall|k: int, m: int|
            0 <= k < g0.nv() && 0 <= m < g0.row(k).len() ==> (#[trigger] g0.row(k)[m]).to as int
                != g0.vid(idx),
        g1.vertices@ == g0.vertices@.remove(idx),
        g1.adj@.len() == g0.adj@.len() - 1,
        forall|k: int| 0 <= k < idx ==> #[trigger] g1.adj@[k] == g0.adj@[k],
        forall|k: int| idx <= k < g1.adj@.len() ==> #[trigger] g1.adj@[k] == g0.adj@[k + 1],
        g1.is_directed == g0.is_directed,
        g1.is_weighted == g0.is_weighted,
        g1.is_float_weighted == g0.is_float_weighted,
    ensures
        g1.wf_basic(),
        g1@.verts == g0@.verts.remove(g0.vid(idx)),
        g1@.edges == Map::new(
            |p: (int, int)| g0@.edges.dom().contains(p) && p.0 != g0.vid(idx),
            |p: (int, int)| g0@.edges[p],
        ),
        g1@.is_directed == g0@.is_directed,
        g1@.is_weighted == g0@.is_weighted,
        g1@.is_float_weighted == g0@.is_float_weighted,
{
    g0.vertices@.remove_ensures(idx);
    let i0 = g0.vid(idx);
    lemma_vindex_self(g0);
    assert(g1.nv() == g0.nv() - 1);
    assert(forall|k: int| 0 <= k < idx ==> #[trigger] g1.vid(k) == g0.vid(k));
    assert forall|k: int| idx <= k < g1.nv() implies #[trigger] g1.vid(k) == g0.vid(k + 1) by {
        assert(g1.vertices@[k] == g0.vertices@[k + 1]);
    }
    // the vertex vector stays sorted
    assert forall|k: int, l: int| 0 <= k < l < g1.nv() implies (#[trigger] g1.vertices@[k]).id < (
    #[trigger] g1.vertices@[l]).id by {
        if l < idx {
            assert(g0.vertices@[k].id < g0.vertices@[l].id);
        } else if k < idx {
            assert(g0.vertices@[k].id < g0.vertices@[l + 1].id);
        } else {
            assert(g0.vertices@[k + 1].id < g0.vertices@[l + 1].id);
        }
    }
    // which ids exist, before and after
    assert forall|id2: int| #[trigger] g1.has_vid(id2) <==> (g0.has_vid(id2) && id2 != i0) by {
        if g1.has_vid(id2) {
            let k = choose|k: int| 0 <= k < g1.nv() && #[trigger] g1.vid(k) == id2;
            if k < idx {
                assert(g0.vid(k) == id2);
                lemma_vindex(g0, id2);
                assert(g0.vindex(id2) == k);
                assert(id2 != i0);
            } else {
                assert(g0.vid(k + 1) == id2);
                lemma_vindex(g0, id2);
                assert(g0.vindex(id2) == k + 1);
                assert(id2 != i0);
            }
        }
        if g0.has_vid(id2) && id2 != i0 {
            lemma_vindex(g0, id2);
            let k = g0.vindex(id2);
            assert(k != idx);
            if k < idx {
                assert(g1.vid(k) == id2);
            } else {
                assert(g1.vid(k - 1) == id2);
            }
        }
    }
    // positions and rows of the remaining vertices carry over
    assert forall|id2: int| g1.has_vid(id2) implies {
        &&& #[trigger] g1.vindex(id2) == if g0.vindex(id2) < idx {
            g0.vindex(id2)
        } else {
            g0.vindex(id2) - 1
        }
        &&& g1.row(g1.vindex(id2)) == g0.row(g0.vindex(id2))
        &&& g1.vertices@[g1.vindex(id2)] == g0.vertices@[g0.vindex(id2)]
    } by {
        lemma_vindex(g0, id2);
        lemma_vindex(g1, id2);
        let k0 = g0.vindex(id2);
        assert(k0 != idx);
        if k0 < idx {
            assert(g1.vid(k0) == id2);
        } else {
            assert(g1.vid(k0 - 1) == id2);
        }
    }
    // the arcs of the remaining vertices are untouched
    assert forall|a: int, b: int| #[trigger] g1.has_arc_g(a, b) <==> (g0.has_arc_g(a, b) && a
        != i0) by {
        if g0.has_vid(a) && a != i0 {
            assert(g1.row(g1.vindex(a)) == g0.row(g0.vindex(a)));
        }
    }
    assert forall|a: int, b: int| g1.has_arc_g(a, b) implies #[trigger] g1.arc_w(a, b)
        == g0.arc_w(a, b) by {
        assert(g1.row(g1.vindex(a)) == g0.row(g0.vindex(a)));
    }
    // well-formedness of the result
    assert forall|k: int| 0 <= k < g1.nv() implies edge_row_sorted(#[trigger] g1.row(k)) by {
        if k < idx {
            assert(g1.row(k) == g0.row(k));
        } else {
            assert(g1.row(k) == g0.row(k + 1));
        }
    }
    assert forall|k: int, m: int| 0 <= k < g1.nv() && 0 <= m < g1.row(k).len() implies g1.has_vid(
        (#[trigger] g1.row(k)[m]).to as int,
    ) && (g1.row(k)[m].weight is Some <==> g1.is_weighted) by {
        let k0 = if k < idx {
            k
        } else {
            k + 1
        };
        assert(g1.row(k) == g0.row(k0));
        assert(g0.has_vid(g0.row(k0)[m].to as int));
        assert(g0.row(k0)[m].to as int != i0);
    }
    assert(g1.wf_basic());
    // the model loses the vertex and the arcs that left it
    assert forall|id2: int| g1@.verts.dom().contains(id2) implies #[trigger] g1@.verts[id2]
        == g0@.verts[id2] by {
        assert(g1.vertices@[g1.vindex(id2)] == g0.vertices@[g0.vindex(id2)]);
    }
    assert(g1@.verts =~= g0@.verts.remove(i0));
    assert(g1@.edges =~= Map::new(
        |p: (int, int)| g0@.edges.dom().contains(p) && p.0 != i0,
        |p: (int, int)| g0@.edges[p],
    ));
}

impl Graph {
    /// Removes the vertex stored at position `idx` together with its
    /// adjacency list; no remaining arc may target it.
    fn remove_vertex_entry(&mut self, idx: usize)
        requires
            old(self).wf_basic(),
            idx < old(self).nv(),
            forall|k: int, m: int|
                0 <= k < old(self).nv() && 0 <= m < old(self).row(k).len() ==> (#[trigger] old(
                    self,
                ).row(k)[m]).to as int != old(self).vid(idx as int),
        ensures
            final(self).wf_basic(),
            final(self)@.verts == old(self)@.verts.remove(old(self).vid(idx as int)),
            final(self)@.edges == Map::new(
                |p: (int, int)| old(self)@.edges.dom().contains(p) && p.0 != old(self).vid(
                    idx as int,
                ),
                |p: (int, int)| old(self)@.edges[p],
            ),
            final(self)@.is_directed == old(self)@.is_directed,
            final(self)@.is_weighted == old(self)@.is_weighted,
            final(self)@.is_float_weighted == old(self)@.is_float_weighted,
    {
        let ghost g0 = *self;
        let _ = self.vertices.remove(idx);
        let _ = self.adj.remove(idx);
        proof {
            lemma_remove_vertex_entry(g0, *self, idx as int);
        }
    }

    /// Removes a vertex together with every arc incident to it, in either
    /// direction, scanning every other vertex's adjacency list. Fails with
    /// `VertexNotFound`, leaving the graph unchanged.
    pub fn remove_vertex(&mut self, i: i32) -> (r: Result<(), GraphOperationError>)
        requires
            old(self).wf(),
        ensures
            final(self).wf(),
            match r {
                Ok(()) => old(self)@.has_vertex(i as int) && final(self)@ == old(
                    self,
                )@.without_vertex(i as int),
                Err(e) => e == GraphOperationError::VertexNotFound && !old(self)@.has_vertex(
                    i as int,
                ) && *final(self) == *old(self),
            },
    {
        let idx = match self.find_vidx(i) {
            Some(k) => k,
            None => {
                return Err(GraphOperationError::VertexNotFound);
            },
        };
        let ghost g0 = *self;
        let n = self.adj.len();
        let mut r: usize = 0;
        while r < n
            invariant
                g0.wf(),
                self.wf_basic(),
                n == g0.nv(),
                r <= n,
                self.vertices@ == g0.vertices@,
                self.adj@.len() == n,
                self.is_directed == g0.is_directed,
                self.is_weighted == g0.is_weighted,
                self.is_float_weighted == g0.is_float_weighted,
                self@.verts == g0@.verts,
                forall|a: int, b: int| #[trigger]
                    self@.edges.dom().contains((a, b)) <==> (g0@.edges.dom().contains((a, b)) && !(
                    b == i as int && g0.vindex(a) < r)),
                forall|a: int, b: int| #[trigger]
                    self@.edges.dom().contains((a, b)) ==> self@.edges[(a, b)] == g0@.edges[
                        (a, b)
                    ],
            decreases n - r,
        {
            let ghost gpre = *self;
            self.strip_arc(r, i);
            proof {
                lemma_vindex_self(g0);
                assert(gpre.vid(r as int) == g0.vid(r as int));
                assert(g0.vindex(g0.vid(r as int)) == r as int);
                assert forall|a: int, b: int| #[trigger] self@.edges.dom().contains((a, b)) <==> (
                g0@.edges.dom().contains((a, b)) && !(b == i as int && g0.vindex(a) < r
                    + 1)) by {
                    assert(self@.edges == gpre@.edges.remove((g0.vid(r as int), i as int)));
                    if g0@.edges.dom().contains((a, b)) && !(b == i as int && g0.vindex(a) < r
                        + 1) {
                        assert((a, b) != (g0.vid(r as int), i as int));
                        assert(gpre@.edges.dom().contains((a, b)));
                    }
                    if self@.edges.dom().contains((a, b)) {
                        assert(gpre@.edges.dom().contains((a, b)));
                        assert((a, b) != (g0.vid(r as int), i as int));
                        if b == i as int && g0.vindex(a) == r as int {
                            assert(g0.has_arc_g(a, b));
                            assert(g0.has_vid(a));
                            lemma_vindex(g0, a);
                            assert(g0.vid(r as int) == a);
                        }
                    }
                }
            }
            r = r + 1;
        }
        proof {
            lemma_vindex(g0, i as int);
            assert(g0.vindex(i as int) == idx as int);
            lemma_vindex_self(*self);
            lemma_same_vertices(g0, *self);
            // no arc targets `i` any more
            assert forall|k: int, m: int|
                0 <= k < self.nv() && 0 <= m < self.row(k).len() implies (#[trigger] self.row(
                k,
            )[m]).to as int != self.vid(idx as int) by {
                if self.row(k)[m].to as int == self.vid(idx as int) {
                    assert(self.vid(idx as int) == i as int);
                    assert(row_has(self.row(k), i as int));
                    assert(self.vindex(self.vid(k)) == k);
                    assert(self.has_arc_g(self.vid(k), i as int));
                    assert(self@.edges.dom().contains((self.vid(k), i as int)));
                    assert(g0.vindex(self.vid(k)) < n);
                }
            }
        }
        let ghost g1 = *self;
        self.remove_vertex_entry(idx);
        proof {
            assert(g1.vid(idx as int) == i as int);
            assert(self@.verts == g1@.verts.remove(i as int));
            assert(self@.verts == g0@.verts.remove(i as int));
            assert forall|p: (int, int)| #[trigger] self@.edges.dom().contains(p) <==> (
            g0@.edges.dom().contains(p) && p.0 != i as int && p.1 != i as int) by {
                if self@.edges.dom().contains(p) {
                    assert(g1@.edges.dom().contains(p));
                    lemma_vindex(g0, p.0);
                }
                if g0@.edges.dom().contains(p) && p.0 != i as int && p.1 != i as int {
                    assert(g1@.edges.dom().contains(p));
                }
            }
            assert forall|p: (int, int)| #[trigger] self@.edges.dom().contains(p) implies self@.edges[p]
                == g0@.edges[p] by {
                assert(g1@.edges.dom().contains(p));
            }
            assert(self@.edges =~= g0@.without_vertex(i as int).edges);
            assert(self@.verts =~= g0@.without_vertex(i as int).verts);
            assert(self@ =~= g0@.without_vertex(i as int));
            if !self.is_directed {
                assert forall|x: int, y: int| #[trigger] self@.edges.dom().contains((x, y)) implies self@.edges.dom().contains(
                    (y, x),
                ) && self@.edges[(y, x)] == self@.edges[(x, y)] by {
                    assert(g0@.edges.dom().contains((x, y)));
                    assert(g0@.edges.dom().contains((y, x)));
                }
                assert(model_sym(self@));
            }
            assert(self.wf());
        }
        Ok(())
    }
}

/// In a well-formed graph every stored arc carries a weight exactly when the
/// graph is weighted, seen at the model level.
pub proof fn lemma_weighted_arcs(g: Graph)
    requires
        g.wf_basic(),
    ensures
        forall|p: (int, int)| #[trigger] g@.edges.dom().contains(p) ==> (g@.edges[p] is Some
            <==> g@.is_weighted),
{
    assert forall|p: (int, int)| #[trigger] g@.edges.dom().contains(p) implies (g@.edges[p] is Some
        <==> g@.is_weighted) by {
        lemma_vindex(g, p.0);
        let k = g.vindex(p.0);
        lemma_row_at(g.row(k), p.1);
        let m = row_at(g.row(k), p.1);
        assert(g.row(k)[m].weight is Some <==> g.is_weighted);
    }
}

/// In a well-formed graph both endpoints of every arc exist as vertices,
/// seen at the model level.
pub proof fn lemma_arc_endpoints(g: Graph)
    requires
        g.wf_basic(),
    ensures
        forall|p: (int, int)| #[trigger] g@.edges.dom().contains(p) ==> g@.verts.dom().contains(
            p.0,
        ) && g@.verts.dom().contains(p.1),
{
    assert forall|p: (int, int)| #[trigger] g@.edges.dom().contains(p) implies g@.verts.dom().contains(
        p.0,
    ) && g@.verts.dom().contains(p.1) by {
        lemma_vindex(g, p.0);
        let k = g.vindex(p.0);
        lemma_row_at(g.row(k), p.1);
        let m = row_at(g.row(k), p.1);
        assert(g.has_vid(g.row(k)[m].to as int));
    }
}

impl Vertex {
    /// An explicit copy, equal to the original.
    pub fn duplicate(&self) -> (v: Vertex)
        ensures
            v == *self,
    {
        let label = match &self.label {
            Some(s) => Some(s.clone()),
            None => None,
        };
        Vertex { id: self.id, label }
    }
}

impl Graph {
    /// The weight of an arc known to exist in a weighted graph.
    pub fn edge_weight(&self, a: i32, b: i32) -> (w: Weight)
        requires
            self.wf(),
            self@.is_weighted,
            self@.has_arc(a as int, b as int),
        ensures
            self@.edges[(a as int, b as int)] == Some(w@),
    {
        proof {
            lemma_weighted_arcs(*self);
            lemma_arc_endpoints(*self);
        }
        match self.get_edge(a, b) {
            Ok(e) => match e.weight {
                Some(w) => w,
                None => {
                    proof {
                        assert(false);
                    }
                    Weight { v: 0 }
                },
            },
            Err(_) => {
                proof {
                    assert(false);
                }
                Weight { v: 0 }
            },
        }
    }

    /// Replaces the weight of an arc known to exist in a directed weighted
    /// graph.
    pub fn set_edge_weight(&mut self, a: i32, b: i32, w: Weight)
        requires
            old(self).wf(),
            old(self)@.is_directed,
            old(self)@.is_weighted,
            old(self)@.has_arc(a as int, b as int),
        ensures
            final(self).wf(),
            final(self)@ == (GraphModel {
                edges: old(self)@.edges.insert((a as int, b as int), Some(w@)),
                ..old(self)@
            }),
    {
        proof {
            lemma_arc_endpoints(*self);
        }
        let ghost g0 = *self;
        self.remove_edge(a, b).unwrap();
        self.add_edge(a, Edge { to: b, weight: Some(w) }).unwrap();
        proof {
            assert(self@.edges =~= g0@.edges.insert((a as int, b as int), Some(w@)));
            assert(self@ =~= (GraphModel {
                edges: g0@.edges.insert((a as int, b as int), Some(w@)),
                ..g0@
            }));
        }
    }
}

/// The vertices stored at positions below `k`, as a map.
pub open spec fn verts_upto(g: Graph, k: int) -> Map<int, Option<Seq<char>>>
    decreases k,
{
    if k <= 0 {
        Map::empty()
    } else {
        verts_upto(g, k - 1).insert(g.vid(k - 1), g.vertices@[k - 1].label.deep_view())
    }
}

pub proof fn lemma_verts_upto(g: Graph, k: int)
    requires
        vertex_ids_sorted(g.vertices@),
        0 <= k <= g.nv(),
    ensures
        forall|id: int| #[trigger] verts_upto(g, k).dom().contains(id) <==> exists|j: int|
            0 <= j < k && #[trigger] g.vid(j) == id,
        forall|id: int|
            #[trigger] verts_upto(g, k).dom().contains(id) ==> verts_upto(g, k)[id]
                == g.vertices@[g.vindex(id)].label.deep_view(),
    decreases k,
{
    if k > 0 {
        lemma_verts_upto(g, k - 1);
        assert forall|id: int| #[trigger] verts_upto(g, k).dom().contains(id) <==> exists|j: int|
            0 <= j < k && #[trigger] g.vid(j) == id by {
            if verts_upto(g, k).dom().contains(id) {
                if id == g.vid(k - 1) {
                    assert(g.vid(k - 1) == id);
                } else {
                    assert(verts_upto(g, k - 1).dom().contains(id));
                    let j = choose|j: int| 0 <= j < k - 1 && #[trigger] g.vid(j) == id;
                    assert(g.vid(j) == id);
                }
            }
            if exists|j: int| 0 <= j < k && #[trigger] g.vid(j) == id {
                let j = choose|j: int| 0 <= j < k && #[trigger] g.vid(j) == id;
                if j < k - 1 {
                    assert(exists|j2: int| 0 <= j2 < k - 1 && #[trigger] g.vid(j2) == id);
                    assert(verts_upto(g, k - 1).dom().contains(id));
                }
            }
        }
        assert forall|id: int| #[trigger] verts_upto(g, k).dom().contains(id) implies verts_upto(
            g,
            k,
        )[id] == g.vertices@[g.vindex(id)].label.deep_view() by {
            if id == g.vid(k - 1) {
                assert(g.has_vid(id));
                lemma_vindex(g, id);
                assert(g.vindex(id) == k - 1);
            } else {
                assert(verts_upto(g, k - 1).dom().contains(id));
            }
        }
    }
}

/// The arcs stored at row positions lexicographically below `(k, m)`, as a
/// map carrying the stored weights.
pub open spec fn arcs_upto(g: Graph, k: int, m: int) -> Map<(int, int), Option<int>>
    decreases k, m,
{
    if k <= 0 && m <= 0 {
        Map::empty()
    } else if m <= 0 {
        arcs_upto(g, k - 1, g.row(k - 1).len() as int)
    } else {
        arcs_upto(g, k, m - 1).insert(
            (g.vid(k), g.row(k)[m - 1].to as int),
            g.row(k)[m - 1].weight.deep_view(),
        )
    }
}

pub proof fn lemma_arcs_upto(g: Graph, k: int, m: int)
    requires
        g.wf_basic(),
        0 <= k <= g.nv(),
        0 <= m,
        k < g.nv() ==> m <= g.row(k).len(),
        k == g.nv() ==> m == 0,
    ensures
        forall|p: (int, int)| #[trigger] arcs_upto(g, k, m).dom().contains(p) <==> (g.has_arc_g(
            p.0,
            p.1,
        ) && (g.vindex(p.0) < k || (g.vindex(p.0) == k && row_at(g.row(k), p.1) < m))),
        forall|p: (int, int)|
            #[trigger] arcs_upto(g, k, m).dom().contains(p) ==> arcs_upto(g, k, m)[p]
                == g@.edges[p],
    decreases k, m,
{
    lemma_vindex_self(g);
    if k <= 0 && m <= 0 {
    } else if m <= 0 {
        let len = g.row(k - 1).len() as int;
        lemma_arcs_upto(g, k - 1, len);
        assert(arcs_upto(g, k, m) == arcs_upto(g, k - 1, len));
        assert forall|p: (int, int)| #[trigger] arcs_upto(g, k, m).dom().contains(p) <==> (
        g.has_arc_g(p.0, p.1) && (g.vindex(p.0) < k || (g.vindex(p.0) == k && row_at(
            g.row(k),
            p.1,
        ) < m))) by {
            if g.has_arc_g(p.0, p.1) {
                lemma_vindex(g, p.0);
                lemma_row_at(g.row(g.vindex(p.0)), p.1);
                if g.vindex(p.0) < k {
                    if g.vindex(p.0) == k - 1 {
                        assert(row_at(g.row(k - 1), p.1) < len);
                    }
                    assert(arcs_upto(g, k - 1, len).dom().contains(p));
                }
                if g.vindex(p.0) == k {
                    assert(row_at(g.row(k), p.1) >= 0);
                }
            }
        }
    } else {
        lemma_arcs_upto(g, k, m - 1);
        let key = (g.vid(k), g.row(k)[m - 1].to as int);
        assert(0 <= k < g.nv());
        assert(g.vindex(g.vid(k)) == k);
        assert(row_has(g.row(k), g.row(k)[m - 1].to as int));
        lemma_row_at(g.row(k), g.row(k)[m - 1].to as int);
        assert(row_at(g.row(k), key.1) == m - 1);
        assert(g.has_vid(g.vid(k)));
        assert(g.has_arc_g(key.0, key.1));
        assert(g@.edges.dom().contains(key));
        assert(g@.edges[key] == g.row(k)[m - 1].weight.deep_view());
        assert forall|p: (int, int)| #[trigger] arcs_upto(g, k, m).dom().contains(p) <==> (
        g.has_arc_g(p.0, p.1) && (g.vindex(p.0) < k || (g.vindex(p.0) == k && row_at(
            g.row(k),
            p.1,
        ) < m))) by {
            if arcs_upto(g, k, m).dom().contains(p) {
                if p != key {
                    assert(arcs_upto(g, k, m - 1).dom().contains(p));
                }
            }
            if g.has_arc_g(p.0, p.1) && (g.vindex(p.0) < k || (g.vindex(p.0) == k && row_at(
                g.row(k),
                p.1,
            ) < m)) {
                lemma_vindex(g, p.0);
                lemma_row_at(g.row(g.vindex(p.0)), p.1);
                if g.vindex(p.0) == k && row_at(g.row(k), p.1) == m - 1 {
                    assert(g.row(k)[m - 1].to as int == p.1);
                    assert(p.0 == g.vid(k));
                    assert(p == key);
                } else {
                    assert(arcs_upto(g, k, m - 1).dom().contains(p));
                }
            }
        }
        assert forall|p: (int, int)| #[trigger] arcs_upto(g, k, m).dom().contains(p) implies arcs_upto(
            g,
            k,
            m,
        )[p] == g@.edges[p] by {
            if p != key {
                assert(arcs_upto(g, k, m - 1).dom().contains(p));
            }
        }
    }
}


/// Symmetry of undirected insertion: after an edge is added to an
/// undirected graph, both the arc and its mirror are present and both carry
/// the inserted weight. Together with `add_edge`, which succeeds exactly
/// when neither arc existed and then yields `with_edge`, and `get_edge`,
/// which returns the stored weight of any present arc, this is the
/// undirected symmetry law.
pub proof fn lemma_undirected_symmetry(m: GraphModel, a: int, b: int, w: Option<int>)
    requires
        !m.is_directed,
    ensures
        m.with_edge(a, b, w).has_arc(a, b),
        m.with_edge(a, b, w).has_arc(b, a),
        m.with_edge(a, b, w).edges[(a, b)] == w,
        m.with_edge(a, b, w).edges[(b, a)] == w,
{
}

/// Cascade deletion: after a vertex is removed, the vertex is gone and no
/// arc incident to it, in either direction, remains. Together with
/// `remove_vertex`, which yields `without_vertex`, and `get_edge`, which
/// reports `VertexNotFound` whenever either endpoint is absent, this is the
/// cascade-delete law.
pub proof fn lemma_cascade_delete(m: GraphModel, v: int)
    ensures
        !m.without_vertex(v).has_vertex(v),
        forall|x: int| !m.without_vertex(v).has_arc(v, x) && !m.without_vertex(v).has_arc(x, v),
{
}

/// Every stored arc weight, seen at the model level, lies within the
/// 32-bit signed range (an absent weight counts as zero).
pub proof fn lemma_arc_values_ranged(g: Graph)
    requires
        g.wf_basic(),
    ensures
        forall|x: (int, int)| #[trigger] g@.edges.dom().contains(x) ==> i32::MIN
            <= crate::weight::opt_int(g@.edges[x]) <= i32::MAX,
{
    assert forall|x: (int, int)| #[trigger] g@.edges.dom().contains(x) implies i32::MIN
        <= crate::weight::opt_int(g@.edges[x]) <= i32::MAX by {
        lemma_vindex(g, x.0);
        let k = g.vindex(x.0);
        lemma_row_at(g.row(k), x.1);
        let m = row_at(g.row(k), x.1);
        assert(g@.edges[x] == g.row(k)[m].weight.deep_view());
        match g.row(k)[m].weight {
            Some(w) => {
                assert(g@.edges[x] == Some(w@));
            },
            None => {},
        }
    }
}

} // verus!
