//! Directed graph keyed by the raw integer identifiers found in the input.
//!
//! The graph is an associative mapping from vertex identifier to its set of
//! outgoing neighbors.  Every identifier that appears in any edge, as source
//! or target, is present as a vertex, even when it has no outgoing arcs.
//! Identifiers need not be contiguous or zero-based.  Neighbor sets are
//! sets: inserting the same edge twice changes nothing.

use vstd::prelude::*;

verus! {

/// A well-formed graph view: a finite vertex set, every neighbor set finite
/// and closed under the vertex set.
pub open spec fn wf_graph(g: Map<u64, Set<u64>>) -> bool {
    &&& g.dom().finite()
    &&& forall|v: u64|
        g.dom().contains(v) ==> (#[trigger] g[v]).finite() && g[v].subset_of(g.dom())
}

/// The graph after making sure `v` is a vertex: unchanged when present,
/// otherwise added with no outgoing arcs.
pub open spec fn add_vertex_spec(g: Map<u64, Set<u64>>, v: u64) -> Map<u64, Set<u64>> {
    if g.dom().contains(v) {
        g
    } else {
        g.insert(v, Set::empty())
    }
}

/// The graph after recording the directed arc `a -> b`: both endpoints
/// become vertices and `b` joins the neighbor set of `a`.
pub open spec fn add_edge_spec(g: Map<u64, Set<u64>>, a: u64, b: u64) -> Map<u64, Set<u64>> {
    let g2 = add_vertex_spec(add_vertex_spec(g, a), b);
    g2.insert(a, g2[a].insert(b))
}

/// The vertex order after making sure `v` is listed.
pub open spec fn add_vertex_order(vs: Seq<u64>, v: u64) -> Seq<u64> {
    if vs.contains(v) {
        vs
    } else {
        vs.push(v)
    }
}

/// The vertex order after recording the arc `a -> b`.
pub open spec fn add_edge_order(vs: Seq<u64>, a: u64, b: u64) -> Seq<u64> {
    add_vertex_order(add_vertex_order(vs, a), b)
}

/// The graph built from an edge list, first edge first.
pub open spec fn graph_of(edges: Seq<(u64, u64)>) -> Map<u64, Set<u64>>
    decreases edges.len(),
{
    if edges.len() == 0 {
        Map::empty()
    } else {
        add_edge_spec(graph_of(edges.drop_last()), edges.last().0, edges.last().1)
    }
}

/// The vertex order of the graph built from an edge list.
pub open spec fn verts_of(edges: Seq<(u64, u64)>) -> Seq<u64>
    decreases edges.len(),
{
    if edges.len() == 0 {
        Seq::empty()
    } else {
        add_edge_order(verts_of(edges.drop_last()), edges.last().0, edges.last().1)
    }
}

/// Linear membership scan over a duplicate-free or plain list.
pub fn vec_contains(v: &Vec<u64>, x: u64) -> (r: bool)
    ensures
        r == v@.contains(x),
{
    let mut i: usize = 0;
    while i < v.len()
        invariant
            i <= v@.len(),
            forall|j: int| 0 <= j < i ==> v@[j] != x,
        decreases v@.len() - i,
    {
        if v[i] == x {
            return true;
        }
        i = i + 1;
    }
    false
}

/// A directed graph over `u64` vertex identifiers.
///
/// `verts` lists the vertices in insertion order, without duplicates;
/// `adj[i]` lists the outgoing neighbors of `verts[i]`, without duplicates.
pub struct Graph {
    verts: Vec<u64>,
    adj: Vec<Vec<u64>>,
}

impl View for Graph {
    type V = Map<u64, Set<u64>>;

    closed spec fn view(&self) -> Map<u64, Set<u64>> {
        Map::new(
            |v: u64| self.verts@.contains(v),
            |v: u64| self.adj@[self.verts@.index_of(v)]@.to_set(),
        )
    }
}

proof fn lemma_index_of_unique(vs: Seq<u64>, i: int)
    requires
        vs.no_duplicates(),
        0 <= i < vs.len(),
    ensures
        vs.index_of(vs[i]) == i,
{
    assert(0 <= i < vs.len() && vs[i] == vs[i]);
    let j = vs.index_of(vs[i]);
    assert(0 <= j < vs.len() && vs[j] == vs[i]);
}

impl Graph {
    /// The vertices of the graph, in insertion order.
    pub closed spec fn vert_seq(&self) -> Seq<u64> {
        self.verts@
    }

    /// Internal invariant: no duplicate vertices, one neighbor list per
    /// vertex, no duplicate neighbors, every neighbor is a vertex.
    pub closed spec fn wf(&self) -> bool {
        &&& self.verts@.no_duplicates()
        &&& self.adj@.len() == self.verts@.len()
        &&& forall|i: int|
            0 <= i < self.adj@.len() ==> (#[trigger] self.adj@[i])@.no_duplicates()
        &&& forall|i: int, j: int|
            0 <= i < self.adj@.len() && 0 <= j < self.adj@[i]@.len() ==> self.verts@.contains(
                #[trigger] self.adj@[i]@[j],
            )
    }

    /// What the view says of the adjacency row of the vertex at index `i`.
    proof fn lemma_view_entry(&self, i: int)
        requires
            self.wf(),
            0 <= i < self.verts@.len(),
        ensures
            self@.dom().contains(self.verts@[i]),
            self@[self.verts@[i]] == self.adj@[i]@.to_set(),
    {
        lemma_index_of_unique(self.verts@, i);
    }

    /// A well-formed `Graph` has a well-formed view, whose domain is
    /// exactly its vertex list.
    pub proof fn lemma_wf_view(&self)
        requires
            self.wf(),
        ensures
            wf_graph(self@),
            self@.dom() =~= self.vert_seq().to_set(),
            self.vert_seq().no_duplicates(),
            self@.dom().len() == self.vert_seq().len(),
    {
        assert(self@.dom() =~= self.vert_seq().to_set());
        self.verts@.unique_seq_to_set();
        assert forall|v: u64| self@.dom().contains(v) implies (#[trigger] self@[v]).finite()
            && self@[v].subset_of(self@.dom()) by {
            let i = self.verts@.index_of(v);
            assert(0 <= i < self.verts@.len() && self.verts@[i] == v);
            self.lemma_view_entry(i);
            assert forall|t: u64| self@[v].contains(t) implies self@.dom().contains(t) by {
                assert(self.adj@[i]@.contains(t));
            }
        }
    }

    /// An empty graph: no vertices, no arcs.
    pub fn new() -> (g: Graph)
        ensures
            g.wf(),
            g@ =~= Map::<u64, Set<u64>>::empty(),
            g.vert_seq() =~= Seq::<u64>::empty(),
    {
        Graph { verts: Vec::new(), adj: Vec::new() }
    }

    fn find_vertex(&self, v: u64) -> (r: Option<usize>)
        ensures
            match r {
                Some(i) => i < self.verts@.len() && self.verts@[i as int] == v,
                None => !self.verts@.contains(v),
            },
    {
        let mut i: usize = 0;
        while i < self.verts.len()
            invariant
                i <= self.verts@.len(),
                forall|j: int| 0 <= j < i ==> self.verts@[j] != v,
            decreases self.verts@.len() - i,
        {
            if self.verts[i] == v {
                return Some(i);
            }
            i = i + 1;
        }
        None
    }

    fn ensure_vertex(&mut self, v: u64) -> (i: usize)
        requires
            old(self).wf(),
        ensures
            final(self).wf(),
            final(self)@ == add_vertex_spec(old(self)@, v),
            final(self).vert_seq() == add_vertex_order(old(self).vert_seq(), v),
            i < final(self).verts@.len(),
            final(self).verts@[i as int] == v,
            old(self).verts@.len() <= final(self).verts@.len(),
            forall|k: int|
                0 <= k < old(self).verts@.len() ==> final(self).verts@[k] == old(self).verts@[k]
                    && final(self).adj@[k] == old(self).adj@[k],
    {
        match self.find_vertex(v) {
            Some(i) => {
                proof {
                    assert(old(self)@.dom().contains(v));
                }
                i
            },
            None => {
                let i = self.verts.len();
                self.verts.push(v);
                self.adj.push(Vec::new());
                proof {
                    let vs = old(self).verts@;
                    let vs2 = self.verts@;
                    assert(vs2.no_duplicates()) by {
                        assert forall|p: int, q: int|
                            0 <= p < vs2.len() && 0 <= q < vs2.len() && p != q implies vs2[p]
                            != vs2[q] by {
                            if p < vs.len() && q < vs.len() {
                            } else if q == vs.len() {
                                if vs2[p] == v {
                                    assert(vs[p] == v);
                                    assert(vs.contains(v));
                                }
                            } else {
                                if vs2[q] == v {
                                    assert(vs[q] == v);
                                    assert(vs.contains(v));
                                }
                            }
                        }
                    }
                    assert(self.wf()) by {
                        assert forall|k: int|
                            0 <= k < self.adj@.len() implies (#[trigger] self.adj@[k])@.no_duplicates() by {
                            if k < old(self).adj@.len() {
                                assert(self.adj@[k] == old(self).adj@[k]);
                            } else {
                                assert(self.adj@[k]@.len() == 0);
                            }
                        }
                        assert forall|k: int, j: int|
                            0 <= k < self.adj@.len() && 0 <= j
                                < self.adj@[k]@.len() implies vs2.contains(
                            #[trigger] self.adj@[k]@[j],
                        ) by {
                            assert(k < old(self).adj@.len());
                            assert(self.adj@[k] == old(self).adj@[k]);
                            let x = self.adj@[k]@[j];
                            assert(vs.contains(x));
                            let jj = choose|jj: int| 0 <= jj < vs.len() && vs[jj] == x;
                            assert(vs2[jj] == x);
                        }
                    }
                    assert(!vs.contains(v));
                    assert(self@ =~= add_vertex_spec(old(self)@, v)) by {
                        assert(vs2[vs.len() as int] == v);
                        assert forall|w: u64| vs.contains(w) implies vs2.contains(w) by {
                            let j = choose|j: int| 0 <= j < vs.len() && vs[j] == w;
                            assert(vs2[j] == w);
                        }
                        assert forall|w: u64| vs2.contains(w) && w != v implies vs.contains(
                            w,
                        ) by {
                            let j = choose|j: int| 0 <= j < vs2.len() && vs2[j] == w;
                            assert(j < vs.len());
                            assert(vs[j] == w);
                        }
                        assert forall|w: u64| #[trigger]
                            vs2.contains(w) implies self@[w] == add_vertex_spec(old(self)@, v)[w] by {
                            if w == v {
                                lemma_index_of_unique(vs2, vs.len() as int);
                                assert(self@[v] == self.adj@[vs.len() as int]@.to_set());
                                assert(self.adj@[vs.len() as int]@.to_set()
                                    =~= Set::<u64>::empty());
                            } else {
                                let j = choose|j: int| 0 <= j < vs.len() && vs[j] == w;
                                lemma_index_of_unique(vs, j);
                                lemma_index_of_unique(vs2, j);
                                assert(self.adj@[j] == old(self).adj@[j]);
                            }
                        }
                    }
                }
                i
            },
        }
    }

    /// Record the directed arc `a -> b`, inserting either endpoint as a
    /// vertex first when absent.  The arc is single-direction: it does not
    /// imply `b -> a`.  Recording an arc already present changes nothing.
    pub fn add_edge(&mut self, a: u64, b: u64)
        requires
            old(self).wf(),
        ensures
            final(self).wf(),
            final(self)@ == add_edge_spec(old(self)@, a, b),
            final(self).vert_seq() == add_edge_order(old(self).vert_seq(), a, b),
    {
        let ia = self.ensure_vertex(a);
        let _ib = self.ensure_vertex(b);
        let ghost g2 = *self;
        proof {
            assert(g2.verts@[ia as int] == a);
            g2.lemma_view_entry(ia as int);
        }
        let present = vec_contains(&self.adj[ia], b);
        if present {
            proof {
                assert(g2@[a].contains(b));
                assert(g2@[a].insert(b) =~= g2@[a]);
                assert(g2@.insert(a, g2@[a].insert(b)) =~= g2@);
                assert(final(self)@ =~= add_edge_spec(old(self)@, a, b));
            }
        } else {
            let target = &mut self.adj[ia];
            target.push(b);
            proof {
                let gv = g2.verts@;
                let row2 = self.adj@[ia as int]@;
                assert(self.verts@ == gv);
                assert(row2 == g2.adj@[ia as int]@.push(b));
                assert(self.verts@.contains(b)) by {
                    assert(g2@.dom().contains(b));
                }
                assert(self.wf()) by {
                    assert forall|i: int|
                        0 <= i < self.adj@.len() implies (#[trigger] self.adj@[i])@.no_duplicates() by {
                        if i == ia as int {
                            assert forall|p: int, q: int|
                                0 <= p < row2.len() && 0 <= q < row2.len() && p
                                    != q implies row2[p] != row2[q] by {
                                let old_row = g2.adj@[ia as int]@;
                                if p < old_row.len() && q < old_row.len() {
                                } else if q == old_row.len() {
                                    if row2[p] == b {
                                        assert(old_row[p] == b);
                                        assert(old_row.contains(b));
                                    }
                                } else {
                                    if row2[q] == b {
                                        assert(old_row[q] == b);
                                        assert(old_row.contains(b));
                                    }
                                }
                            }
                        } else {
                            assert(self.adj@[i] == g2.adj@[i]);
                        }
                    }
                    assert forall|i: int, j: int|
                        0 <= i < self.adj@.len() && 0 <= j
                            < self.adj@[i]@.len() implies self.verts@.contains(
                        #[trigger] self.adj@[i]@[j],
                    ) by {
                        if i == ia as int {
                            if j < g2.adj@[ia as int]@.len() {
                                assert(self.adj@[i]@[j] == g2.adj@[i]@[j]);
                            } else {
                                assert(self.adj@[i]@[j] == b);
                            }
                        } else {
                            assert(self.adj@[i] == g2.adj@[i]);
                        }
                    }
                }
                assert(self@ =~= g2@.insert(a, g2@[a].insert(b))) by {
                    assert forall|w: u64| #[trigger]
                        gv.contains(w) implies self@[w] == g2@.insert(a, g2@[a].insert(b))[w] by {
                        if w == a {
                            self.lemma_view_entry(ia as int);
                            assert(self@[a] == row2.to_set());
                            assert(row2.to_set() =~= g2@[a].insert(b)) by {
                                let old_row = g2.adj@[ia as int]@;
                                assert forall|t: u64| old_row.contains(t) implies row2.contains(
                                    t,
                                ) by {
                                    let j = choose|j: int|
                                        0 <= j < old_row.len() && old_row[j] == t;
                                    assert(row2[j] == t);
                                }
                                assert(row2[old_row.len() as int] == b);
                                assert forall|t: u64| row2.contains(t) && t != b implies old_row.contains(
                                    t,
                                ) by {
                                    let j = choose|j: int| 0 <= j < row2.len() && row2[j] == t;
                                    assert(j < old_row.len());
                                    assert(old_row[j] == t);
                                }
                            }
                        } else {
                            let j = choose|j: int| 0 <= j < gv.len() && gv[j] == w;
                            lemma_index_of_unique(gv, j);
                            assert(j != ia as int);
                            assert(self.adj@[j] == g2.adj@[j]);
                        }
                    }
                }
                assert(final(self)@ =~= add_edge_spec(old(self)@, a, b));
            }
        }
    }

    /// Whether `v` is a vertex of the graph.
    pub fn has_vertex(&self, v: u64) -> (r: bool)
        ensures
            r == self@.dom().contains(v),
    {
        match self.find_vertex(v) {
            Some(_) => true,
            None => false,
        }
    }

    /// Whether the graph holds the directed arc `a -> b`.
    pub fn has_edge(&self, a: u64, b: u64) -> (r: bool)
        requires
            self.wf(),
        ensures
            r == (self@.dom().contains(a) && self@[a].contains(b)),
    {
        match self.find_vertex(a) {
            Some(i) => {
                proof {
                    self.lemma_view_entry(i as int);
                }
                vec_contains(&self.adj[i], b)
            },
            None => false,
        }
    }

    /// The number of vertices.
    pub fn vertex_count(&self) -> (n: usize)
        ensures
            n == self.vert_seq().len(),
    {
        self.verts.len()
    }

    /// The vertex at position `i` of the insertion order.
    pub fn vertex_at(&self, i: usize) -> (v: u64)
        requires
            i < self.vert_seq().len(),
        ensures
            v == self.vert_seq()[i as int],
    {
        self.verts[i]
    }

    /// The outgoing neighbors of vertex `v`, as a duplicate-free list.
    pub fn neighbors(&self, v: u64) -> (nb: &Vec<u64>)
        requires
            self.wf(),
            self@.dom().contains(v),
        ensures
            nb@.to_set() == self@[v],
            nb@.no_duplicates(),
            forall|j: int| 0 <= j < nb@.len() ==> self@.dom().contains(#[trigger] nb@[j]),
    {
        proof {
            assert(self.verts@.contains(v));
        }
        let i = match self.find_vertex(v) {
            Some(i) => i,
            None => {
                proof {
                    assert(false);
                }
                0
            },
        };
        proof {
            self.lemma_view_entry(i as int);
            assert forall|j: int| 0 <= j < self.adj@[i as int]@.len() implies self@.dom().contains(
                #[trigger] self.adj@[i as int]@[j],
            ) by {
                assert(self.verts@.contains(self.adj@[i as int]@[j]));
            }
        }
        &self.adj[i]
    }

    /// Build the graph of an edge list: every endpoint becomes a vertex and
    /// every pair becomes a directed arc, in list order.
    pub fn build_graph(edges: &Vec<(u64, u64)>) -> (g: Graph)
        ensures
            g.wf(),
            g@ == graph_of(edges@),
            g.vert_seq() == verts_of(edges@),
    {
        let mut g = Graph::new();
        let mut i: usize = 0;
        while i < edges.len()
            invariant
                i <= edges@.len(),
                g.wf(),
                g@ == graph_of(edges@.subrange(0, i as int)),
                g.vert_seq() == verts_of(edges@.subrange(0, i as int)),
            decreases edges@.len() - i,
        {
            let ghost pre = edges@.subrange(0, i as int);
            let ghost pre1 = edges@.subrange(0, i + 1);
            proof {
                assert(pre1.drop_last() =~= pre);
                assert(pre1.last() == edges@[i as int]);
            }
            let (a, b) = edges[i];
            g.add_edge(a, b);
            i = i + 1;
        }
        proof {
            assert(edges@.subrange(0, edges@.len() as int) =~= edges@);
        }
        g
    }
}

/// Each edge of the list taken twice, in place.
pub open spec fn dup_each(edges: Seq<(u64, u64)>) -> Seq<(u64, u64)>
    decreases edges.len(),
{
    if edges.len() == 0 {
        Seq::empty()
    } else {
        dup_each(edges.drop_last()).push(edges.last()).push(edges.last())
    }
}

/// Recording an arc twice is the same as recording it once.
pub proof fn lemma_add_edge_idempotent(g: Map<u64, Set<u64>>, a: u64, b: u64)
    ensures
        add_edge_spec(add_edge_spec(g, a, b), a, b) == add_edge_spec(g, a, b),
{
    let g1 = add_edge_spec(g, a, b);
    assert(g1.dom().contains(a) && g1.dom().contains(b));
    assert(g1[a].contains(b));
    assert(g1[a].insert(b) =~= g1[a]);
    assert(add_edge_spec(g1, a, b) =~= g1);
}

/// Adding an arc whose endpoints are already listed keeps the vertex order.
pub proof fn lemma_add_edge_order_stable(vs: Seq<u64>, a: u64, b: u64)
    requires
        vs.contains(a),
        vs.contains(b),
    ensures
        add_edge_order(vs, a, b) == vs,
{
}

/// Duplicate-edge idempotence: building the graph from the same edge list
/// with every edge duplicated yields an identical neighbor structure, and
/// the same vertex order.
pub proof fn lemma_duplicate_edges_same_graph(edges: Seq<(u64, u64)>)
    ensures
        graph_of(dup_each(edges)) == graph_of(edges),
        verts_of(dup_each(edges)) == verts_of(edges),
    decreases edges.len(),
{
    if edges.len() == 0 {
        assert(dup_each(edges).len() == 0);
    } else {
        let rest = edges.drop_last();
        let e = edges.last();
        lemma_duplicate_edges_same_graph(rest);
        let d = dup_each(edges);
        let d1 = dup_each(rest).push(e);
        assert(d == d1.push(e));
        assert(d.drop_last() =~= d1);
        assert(d.last() == e);
        assert(d1.drop_last() =~= dup_each(rest));
        assert(d1.last() == e);
        assert(graph_of(d1) == add_edge_spec(graph_of(dup_each(rest)), e.0, e.1));
        assert(graph_of(d) == add_edge_spec(graph_of(d1), e.0, e.1));
        lemma_add_edge_idempotent(graph_of(rest), e.0, e.1);
        assert(verts_of(d1) == add_edge_order(verts_of(dup_each(rest)), e.0, e.1));
        assert(verts_of(d) == add_edge_order(verts_of(d1), e.0, e.1));
        let vs1 = add_edge_order(verts_of(rest), e.0, e.1);
        assert(vs1.contains(e.0) && vs1.contains(e.1)) by {
            let v0 = add_vertex_order(verts_of(rest), e.0);
            assert(v0.contains(e.0)) by {
                if !verts_of(rest).contains(e.0) {
                    assert(v0[v0.len() - 1] == e.0);
                } else {
                    let j = choose|j: int|
                        0 <= j < verts_of(rest).len() && verts_of(rest)[j] == e.0;
                    assert(v0[j] == e.0);
                }
            }
            assert(vs1.contains(e.1)) by {
                if !v0.contains(e.1) {
                    assert(vs1[vs1.len() - 1] == e.1);
                } else {
                    let j = choose|j: int| 0 <= j < v0.len() && v0[j] == e.1;
                    assert(vs1[j] == e.1);
                }
            }
            assert(vs1.contains(e.0)) by {
                if vs1 == v0 {
                } else {
                    let j = choose|j: int| 0 <= j < v0.len() && v0[j] == e.0;
                    assert(vs1[j] == e.0);
                }
            }
        }
        lemma_add_edge_order_stable(vs1, e.0, e.1);
    }
}

} // verus!
