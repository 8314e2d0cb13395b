//! The graph store: owns vertex and edge data, exposes existence checks
//! and adjacency queries.
//!
//! A graph is modelled as a mapping from each existing vertex to its
//! out-adjacency set. A vertex exists if and only if it has an entry in
//! that mapping, even when its adjacency set is empty: a vertex with no
//! outgoing edges is different from an absent vertex.

use vstd::prelude::*;

verus! {

/// A vertex is identified by a non-negative integer.
pub type Vertex = usize;

/// The ways a graph operation can fail.
#[derive(Clone, Copy, Debug, PartialEq, Eq, Structural)]
pub enum GraphError {
    /// An operation referred to a vertex that is not in the graph.
    MissingVertex,
    /// A topological sort was asked of a graph that contains a cycle.
    CycleDetected,
}

/// The abstract effect of inserting a vertex: a fresh vertex gets an
/// empty adjacency set; inserting an existing vertex changes nothing.
pub open spec fn after_add_vertex(m: Map<Vertex, Set<Vertex>>, v: Vertex) -> Map<Vertex, Set<Vertex>> {
    if m.dom().contains(v) {
        m
    } else {
        m.insert(v, Set::empty())
    }
}

/// The abstract effect of a batch of vertex insertions, applied in order.
pub open spec fn after_add_vertices(m: Map<Vertex, Set<Vertex>>, vs: Seq<Vertex>) -> Map<Vertex, Set<Vertex>>
    decreases vs.len(),
{
    if vs.len() == 0 {
        m
    } else {
        after_add_vertices(after_add_vertex(m, vs[0]), vs.drop_first())
    }
}

/// The abstract effect of inserting an edge: when both endpoints exist,
/// the destination joins the source's adjacency set; otherwise the graph
/// is unchanged.
pub open spec fn after_add_edge(m: Map<Vertex, Set<Vertex>>, src: Vertex, dest: Vertex) -> Map<Vertex, Set<Vertex>> {
    if m.dom().contains(src) && m.dom().contains(dest) {
        m.insert(src, m[src].insert(dest))
    } else {
        m
    }
}

/// Both endpoints of the pair exist in the graph.
pub open spec fn pair_valid(m: Map<Vertex, Set<Vertex>>, p: (Vertex, Vertex)) -> bool {
    m.dom().contains(p.0) && m.dom().contains(p.1)
}

/// Every pair in the batch has both endpoints in the graph.
pub open spec fn all_pairs_valid(m: Map<Vertex, Set<Vertex>>, ps: Seq<(Vertex, Vertex)>) -> bool {
    forall|i: int| 0 <= i < ps.len() ==> pair_valid(m, #[trigger] ps[i])
}

/// The abstract effect of a batch of edge insertions, applied in order.
pub open spec fn after_add_edges(m: Map<Vertex, Set<Vertex>>, ps: Seq<(Vertex, Vertex)>) -> Map<Vertex, Set<Vertex>>
    decreases ps.len(),
{
    if ps.len() == 0 {
        m
    } else {
        after_add_edges(after_add_edge(m, ps[0].0, ps[0].1), ps.drop_first())
    }
}

/// The vertex `u` exists according to the presence table `s`.
pub(crate) open spec fn is_vertex_in(s: Seq<bool>, u: Vertex) -> bool {
    u < s.len() && s[u as int]
}

/// How many entries of the presence table are set.
pub(crate) open spec fn count_present(s: Seq<bool>) -> nat
    decreases s.len(),
{
    if s.len() == 0 {
        0
    } else {
        count_present(s.drop_last()) + (if s.last() { 1nat } else { 0nat })
    }
}

/// The set of vertices that the presence table marks as existing.
pub(crate) open spec fn present_set(s: Seq<bool>) -> Set<Vertex> {
    Set::new(|v: Vertex| is_vertex_in(s, v))
}

/// No more entries can be set than the table has.
proof fn lemma_count_le_len(s: Seq<bool>)
    ensures
        count_present(s) <= s.len(),
    decreases s.len(),
{
    if s.len() > 0 {
        lemma_count_le_len(s.drop_last());
    }
}

/// Appending an entry adds one to the count exactly when it is set.
proof fn lemma_count_push(s: Seq<bool>, b: bool)
    ensures
        count_present(s.push(b)) == count_present(s) + (if b { 1nat } else { 0nat }),
{
    assert(s.push(b).drop_last() =~= s);
}

/// Setting an unset entry adds one to the count.
proof fn lemma_count_update_true(s: Seq<bool>, i: int)
    requires
        0 <= i < s.len(),
        !s[i],
    ensures
        count_present(s.update(i, true)) == count_present(s) + 1,
    decreases s.len(),
{
    let t = s.update(i, true);
    if i == s.len() - 1 {
        assert(t.drop_last() =~= s.drop_last());
        assert(t.last());
    } else {
        assert(t.drop_last() =~= s.drop_last().update(i, true));
        lemma_count_update_true(s.drop_last(), i);
        assert(t.last() == s.last());
    }
}

/// The count of set entries is the cardinality of the vertex set they
/// describe.
proof fn lemma_count_is_card(s: Seq<bool>)
    requires
        s.len() <= usize::MAX,
    ensures
        present_set(s).finite(),
        present_set(s).len() == count_present(s),
    decreases s.len(),
{
    if s.len() == 0 {
        assert(present_set(s) =~= Set::<Vertex>::empty());
    } else {
        lemma_count_is_card(s.drop_last());
        let last: Vertex = (s.len() - 1) as Vertex;
        if s.last() {
            assert(present_set(s) =~= present_set(s.drop_last()).insert(last));
            assert(!present_set(s.drop_last()).contains(last));
        } else {
            assert(present_set(s) =~= present_set(s.drop_last()));
        }
    }
}

/// Processing one batch element commutes with the fold that describes
/// the whole batch of vertex insertions.
proof fn lemma_after_add_vertices_step(m: Map<Vertex, Set<Vertex>>, vs: Seq<Vertex>, i: int)
    requires
        0 <= i < vs.len(),
    ensures
        after_add_vertices(m, vs.skip(i)) == after_add_vertices(after_add_vertex(m, vs[i]), vs.skip(i + 1)),
{
    assert(vs.skip(i).drop_first() =~= vs.skip(i + 1));
    assert(vs.skip(i)[0] == vs[i]);
}

/// Processing one batch element commutes with the fold that describes
/// the whole batch of edge insertions.
proof fn lemma_after_add_edges_step(m: Map<Vertex, Set<Vertex>>, ps: Seq<(Vertex, Vertex)>, i: int)
    requires
        0 <= i < ps.len(),
    ensures
        after_add_edges(m, ps.skip(i)) == after_add_edges(after_add_edge(m, ps[i].0, ps[i].1), ps.skip(i + 1)),
{
    assert(ps.skip(i).drop_first() =~= ps.skip(i + 1));
    assert(ps.skip(i)[0] == ps[i]);
}

/// A pushed element joins a sequence's membership, and nothing else does.
pub(crate) proof fn lemma_push_contains(s: Seq<Vertex>, x: Vertex, u: Vertex)
    ensures
        s.push(x).contains(u) <==> (s.contains(u) || u == x),
{
    if s.contains(u) {
        let i = choose|i: int| 0 <= i < s.len() && s[i] == u;
        assert(s.push(x)[i] == u);
    }
    if u == x {
        assert(s.push(x)[s.len() as int] == u);
    }
    if s.push(x).contains(u) {
        let i = choose|i: int| 0 <= i < s.push(x).len() && s.push(x)[i] == u;
        if i < s.len() {
            assert(s[i] == u);
        }
    }
}

/// Directed graph implemented as an adjacency list, one row of
/// out-neighbours per vertex identifier. A vertex identifier indexes
/// directly into the rows; `present` distinguishes a vertex with no
/// outgoing edges from one that was never added.
pub struct DirectedGraph {
    /// `present[v]` holds exactly when vertex `v` has been added.
    present: Vec<bool>,
    /// `adj[v]` lists the out-neighbours of `v`, without duplicates;
    /// rows of absent vertices are empty.
    adj: Vec<Vec<Vertex>>,
    /// The number of vertices, kept separately because the length of
    /// the rows is a capacity, not a count.
    num_vertices: usize,
}

impl View for DirectedGraph {
    type V = Map<Vertex, Set<Vertex>>;

    /// The graph as a mapping from each existing vertex to its
    /// out-adjacency set.
    closed spec fn view(&self) -> Map<Vertex, Set<Vertex>> {
        Map::new(
            |v: Vertex| is_vertex_in(self.present@, v),
            |v: Vertex| Set::new(|u: Vertex| self.adj@[v as int]@.contains(u)),
        )
    }
}

impl DirectedGraph {
    /// The representation invariant: the presence table and the
    /// adjacency rows line up, the vertex count is exact, rows hold no
    /// duplicates, rows of absent vertices are empty, and every listed
    /// neighbour is itself a vertex of the graph.
    pub closed spec fn wf(&self) -> bool {
        &&& self.adj@.len() == self.present@.len()
        &&& self.num_vertices == count_present(self.present@)
        &&& (forall|v: int| 0 <= v < self.adj@.len() ==> (#[trigger] self.adj@[v])@.no_duplicates())
        &&& (forall|v: int| 0 <= v < self.adj@.len() && !self.present@[v] ==> self.adj@[v]@.len() == 0)
        &&& (forall|v: int, k: int|
            0 <= v < self.adj@.len() && 0 <= k < self.adj@[v]@.len()
                ==> is_vertex_in(self.present@, #[trigger] self.adj@[v]@[k]))
    }

    /// Construct a new graph with the specified initial capacity.
    /// The graph starts with no vertices; the capacity only sizes the
    /// backing storage to avoid frequent resizing.
    pub fn new(capacity: usize) -> (g: Self)
        ensures
            g.wf(),
            g@ == Map::<Vertex, Set<Vertex>>::empty(),
    {
        let g = DirectedGraph {
            present: Vec::with_capacity(capacity),
            adj: Vec::with_capacity(capacity),
            num_vertices: 0,
        };
        proof {
            assert(g@ =~= Map::<Vertex, Set<Vertex>>::empty());
        }
        g
    }

    /// Return the number of vertices in the graph.
    pub fn num_vertices(&self) -> (n: usize)
        requires
            self.wf(),
        ensures
            n == self@.dom().len(),
    {
        let cap = self.present.len();
        proof {
            assert(self.present@.len() == cap);
            assert(self@.dom() =~= present_set(self.present@));
            lemma_count_is_card(self.present@);
        }
        self.num_vertices
    }

    /// Attempts to add a vertex with the specified identifier.
    /// Adding an existing vertex is a no-op; the result tells whether
    /// the vertex was freshly inserted.
    pub fn add_vertex(&mut self, index: Vertex) -> (added: bool)
        requires
            old(self).wf(),
            index < usize::MAX,
        ensures
            final(self).wf(),
            final(self)@ == after_add_vertex(old(self)@, index),
            added == !old(self)@.dom().contains(index),
    {
        while self.present.len() <= index
            invariant
                index < usize::MAX,
                self.wf(),
                self@ == old(self)@,
            decreases index + 1 - self.present@.len(),
        {
            let ghost prev = *self;
            self.present.push(false);
            self.adj.push(Vec::new());
            proof {
                lemma_count_push(prev.present@, false);
                assert(self@ =~~= prev@);
            }
        }
        if !self.present[index] {
            let ghost prev = *self;
            self.present[index] = true;
            proof {
                lemma_count_update_true(prev.present@, index as int);
                lemma_count_le_len(self.present@);
            }
            self.num_vertices = self.num_vertices + 1;
            proof {
                assert(self@ =~~= old(self)@.insert(index, Set::empty()));
            }
            true
        } else {
            proof {
                assert(self@ =~~= old(self)@);
            }
            false
        }
    }

    /// Returns true if and only if the graph contains the specified vertex.
    pub fn has_vertex(&self, vertex: Vertex) -> (r: bool)
        requires
            self.wf(),
        ensures
            r == self@.dom().contains(vertex),
    {
        vertex < self.present.len() && self.present[vertex]
    }

    /// Add every vertex of the list in order. Since a single insertion
    /// never fails, the batch needs no atomicity guarantee.
    pub fn add_vertices(&mut self, list: &Vec<Vertex>)
        requires
            old(self).wf(),
            forall|i: int| 0 <= i < list@.len() ==> #[trigger] list@[i] < usize::MAX,
        ensures
            final(self).wf(),
            final(self)@ == after_add_vertices(old(self)@, list@),
    {
        let ghost m0 = old(self)@;
        proof {
            assert(list@.skip(0) =~= list@);
        }
        let mut x: usize = 0;
        while x < list.len()
            invariant
                self.wf(),
                x <= list@.len(),
                forall|i: int| 0 <= i < list@.len() ==> #[trigger] list@[i] < usize::MAX,
                after_add_vertices(self@, list@.skip(x as int)) == after_add_vertices(m0, list@),
            decreases list@.len() - x,
        {
            proof {
                lemma_after_add_vertices_step(self@, list@, x as int);
            }
            let _ = self.add_vertex(list[x]);
            x = x + 1;
        }
        proof {
            assert(list@.skip(list@.len() as int) =~= Seq::<Vertex>::empty());
        }
    }

    /// Whether `dest` already stands in the adjacency row of `src`.
    fn row_contains(&self, src: Vertex, dest: Vertex) -> (r: bool)
        requires
            self.wf(),
            self@.dom().contains(src),
        ensures
            r == self@[src].contains(dest),
            r == self.adj@[src as int]@.contains(dest),
    {
        let deg = self.adj[src].len();
        let mut k: usize = 0;
        while k < deg
            invariant
                self.wf(),
                self@.dom().contains(src),
                deg == self.adj@[src as int]@.len(),
                k <= deg,
                forall|j: int| 0 <= j < k ==> self.adj@[src as int]@[j] != dest,
            decreases deg - k,
        {
            if self.adj[src][k] == dest {
                return true;
            }
            k = k + 1;
        }
        false
    }

    /// Create a directed edge from src to dest, failing with
    /// `MissingVertex` if at least one of the vertices does not exist.
    /// Inserting an edge that is already there is a no-op: parallel
    /// edges collapse to one.
    pub fn add_edge(&mut self, src: Vertex, dest: Vertex) -> (r: Result<(), GraphError>)
        requires
            old(self).wf(),
        ensures
            final(self).wf(),
            final(self)@ == after_add_edge(old(self)@, src, dest),
            r == (if old(self)@.dom().contains(src) && old(self)@.dom().contains(dest) {
                Result::<(), GraphError>::Ok(())
            } else {
                Result::<(), GraphError>::Err(GraphError::MissingVertex)
            }),
    {
        if self.has_vertex(src) && self.has_vertex(dest) {
            if !self.row_contains(src, dest) {
                let ghost prev = *self;
                self.adj[src].push(dest);
                proof {
                    let oldrow = prev.adj@[src as int]@;
                    let newrow = self.adj@[src as int]@;
                    assert(newrow =~= oldrow.push(dest));
                    assert forall|u: Vertex| newrow.contains(u) <==> (oldrow.contains(u) || u
                        == dest) by {
                        lemma_push_contains(oldrow, dest, u);
                    }
                    assert(newrow.no_duplicates()) by {
                        assert forall|i: int, j: int|
                            0 <= i < newrow.len() && 0 <= j < newrow.len() && i
                                != j implies newrow[i] != newrow[j] by {
                            if i < oldrow.len() && j < oldrow.len() {
                                assert(oldrow[i] != oldrow[j]);
                            } else if i < oldrow.len() {
                                assert(oldrow[i] != dest);
                            } else {
                                assert(oldrow[j] != dest);
                            }
                        }
                    }
                    assert(self@ =~~= after_add_edge(prev@, src, dest));
                }
            } else {
                proof {
                    assert(self@[src].insert(dest) =~= self@[src]);
                    assert(self@ =~~= after_add_edge(old(self)@, src, dest));
                }
            }
            Ok(())
        } else {
            Err(GraphError::MissingVertex)
        }
    }

    /// Add every edge of the list, all or nothing: if any pair of the
    /// batch names a missing vertex, fail with `MissingVertex` and
    /// leave the graph exactly as it was; otherwise insert every edge.
    pub fn add_edges(&mut self, list: &Vec<(Vertex, Vertex)>) -> (r: Result<(), GraphError>)
        requires
            old(self).wf(),
        ensures
            final(self).wf(),
            all_pairs_valid(old(self)@, list@) ==> r == Result::<(), GraphError>::Ok(())
                && final(self)@ == after_add_edges(old(self)@, list@),
            !all_pairs_valid(old(self)@, list@) ==> r == Result::<(), GraphError>::Err(
                GraphError::MissingVertex,
            ) && final(self)@ == old(self)@,
    {
        let ghost g0 = *old(self);
        let mut x: usize = 0;
        while x < list.len()
            invariant
                *self == g0,
                self.wf(),
                x <= list@.len(),
                forall|i: int| 0 <= i < x ==> pair_valid(self@, #[trigger] list@[i]),
            decreases list@.len() - x,
        {
            let p = list[x];
            if !(self.has_vertex(p.0) && self.has_vertex(p.1)) {
                proof {
                    assert(!pair_valid(self@, list@[x as int]));
                }
                return Err(GraphError::MissingVertex);
            }
            x = x + 1;
        }
        let ghost m0 = self@;
        proof {
            assert(all_pairs_valid(m0, list@));
            assert(list@.skip(0) =~= list@);
        }
        let mut y: usize = 0;
        while y < list.len()
            invariant
                self.wf(),
                y <= list@.len(),
                self@.dom() == m0.dom(),
                all_pairs_valid(m0, list@),
                after_add_edges(self@, list@.skip(y as int)) == after_add_edges(m0, list@),
            decreases list@.len() - y,
        {
            proof {
                lemma_after_add_edges_step(self@, list@, y as int);
                assert(pair_valid(m0, list@[y as int]));
            }
            let ghost pre = self@;
            let p = list[y];
            let _ = self.add_edge(p.0, p.1);
            proof {
                assert(self@.dom() =~= pre.dom());
            }
            y = y + 1;
        }
        proof {
            assert(list@.skip(list@.len() as int) =~= Seq::<(Vertex, Vertex)>::empty());
        }
        Ok(())
    }

    /// The current set of vertex identifiers, as a duplicate-free
    /// snapshot: later mutation of the graph does not affect it.
    pub fn vertices(&self) -> (vs: Vec<Vertex>)
        requires
            self.wf(),
        ensures
            vs@.no_duplicates(),
            forall|v: Vertex| #[trigger] vs@.contains(v) <==> self@.dom().contains(v),
    {
        let mut vs: Vec<Vertex> = Vec::new();
        let n = self.present.len();
        let mut i: usize = 0;
        while i < n
            invariant
                self.wf(),
                n == self.present@.len(),
                i <= n,
                forall|k: int, l: int| 0 <= k < l < vs@.len() ==> vs@[k] < vs@[l],
                forall|k: int| 0 <= k < vs@.len() ==> vs@[k] < i,
                forall|v: Vertex| #[trigger] vs@.contains(v) <==> (v < i && self.present@[v as int]),
            decreases n - i,
        {
            if self.present[i] {
                let ghost prev = vs@;
                vs.push(i);
                proof {
                    assert forall|v: Vertex| #[trigger]
                        vs@.contains(v) <==> (prev.contains(v) || v == i) by {
                        lemma_push_contains(prev, i, v);
                    }
                }
            }
            i = i + 1;
        }
        proof {
            assert(vs@.no_duplicates()) by {
                assert forall|k: int, l: int|
                    0 <= k < vs@.len() && 0 <= l < vs@.len() && k != l implies vs@[k] != vs@[l] by {
                    if k < l {
                        assert(vs@[k] < vs@[l]);
                    } else {
                        assert(vs@[l] < vs@[k]);
                    }
                }
            }
        }
        vs
    }

    /// The out-adjacency set of `v`, as a duplicate-free snapshot;
    /// fails with `MissingVertex` if `v` is absent.
    pub fn edges_from(&self, v: Vertex) -> (r: Result<Vec<Vertex>, GraphError>)
        requires
            self.wf(),
        ensures
            self@.dom().contains(v) ==> {
                &&& r is Ok
                &&& r->Ok_0@.no_duplicates()
                &&& (forall|u: Vertex| #[trigger] r->Ok_0@.contains(u) <==> self@[v].contains(u))
            },
            !self@.dom().contains(v) ==> r == Result::<Vec<Vertex>, GraphError>::Err(
                GraphError::MissingVertex,
            ),
    {
        if !self.has_vertex(v) {
            return Err(GraphError::MissingVertex);
        }
        let deg = self.adj[v].len();
        let mut out: Vec<Vertex> = Vec::new();
        let mut k: usize = 0;
        while k < deg
            invariant
                self.wf(),
                self@.dom().contains(v),
                deg == self.adj@[v as int]@.len(),
                k <= deg,
                out@ == self.adj@[v as int]@.take(k as int),
            decreases deg - k,
        {
            let ghost row = self.adj@[v as int]@;
            out.push(self.adj[v][k]);
            proof {
                assert(out@ =~= row.take(k + 1));
            }
            k = k + 1;
        }
        proof {
            assert(out@ =~= self.adj@[v as int]@);
        }
        Ok(out)
    }

    /// The adjacency row of `v`: the out-neighbours in their stored
    /// order. The row lists the elements of the adjacency set `self@[v]`
    /// once each.
    pub closed spec fn spec_adj(&self, v: Vertex) -> Seq<Vertex> {
        self.adj@[v as int]@
    }

    /// The adjacency row of an existing vertex carries its adjacency
    /// set without duplicates, and every listed neighbour is a vertex
    /// of the graph.
    pub proof fn lemma_adj_row(&self, v: Vertex)
        requires
            self.wf(),
            self@.dom().contains(v),
        ensures
            self.spec_adj(v).no_duplicates(),
            forall|u: Vertex| #[trigger] self.spec_adj(v).contains(u) <==> self@[v].contains(u),
            forall|k: int|
                0 <= k < self.spec_adj(v).len() ==> self@.dom().contains(
                    #[trigger] self.spec_adj(v)[k],
                ),
    {
    }

    /// The number of out-neighbours of an existing vertex.
    pub fn out_degree(&self, v: Vertex) -> (d: usize)
        requires
            self.wf(),
            self@.dom().contains(v),
        ensures
            d == self.spec_adj(v).len(),
    {
        self.adj[v].len()
    }

    /// The `k`-th out-neighbour of an existing vertex, in stored order.
    pub fn neighbor(&self, v: Vertex, k: usize) -> (u: Vertex)
        requires
            self.wf(),
            self@.dom().contains(v),
            k < self.spec_adj(v).len(),
        ensures
            u == self.spec_adj(v)[k as int],
    {
        self.adj[v][k]
    }

    /// An exclusive upper bound on the identifiers of the vertices
    /// currently in the graph.
    pub fn id_bound(&self) -> (b: usize)
        requires
            self.wf(),
        ensures
            forall|v: Vertex| self@.dom().contains(v) ==> v < b,
    {
        self.present.len()
    }

    /// Returns true if and only if an edge exists between src and dest.
    /// Returns an `Err` if either of the vertices is not in the graph.
    pub fn has_edge(&self, src: Vertex, dest: Vertex) -> (r: Result<bool, GraphError>)
        requires
            self.wf(),
        ensures
            self@.dom().contains(src) && self@.dom().contains(dest) ==> r == Result::<
                bool,
                GraphError,
            >::Ok(self@[src].contains(dest)),
            !(self@.dom().contains(src) && self@.dom().contains(dest)) ==> r == Result::<
                bool,
                GraphError,
            >::Err(GraphError::MissingVertex),
    {
        if self.has_vertex(src) && self.has_vertex(dest) {
            Ok(self.row_contains(src, dest))
        } else {
            Err(GraphError::MissingVertex)
        }
    }
}

/// Vertex insertion is idempotent: inserting a vertex twice leaves the
/// graph — and with it the vertex count — exactly as one insertion does.
pub proof fn lemma_add_vertex_idempotent(m: Map<Vertex, Set<Vertex>>, v: Vertex)
    ensures
        after_add_vertex(after_add_vertex(m, v), v) == after_add_vertex(m, v),
{
}

/// An edge insertion that names a missing endpoint changes nothing:
/// every existing vertex keeps exactly the adjacency set it had.
pub proof fn lemma_add_edge_missing_vertex(m: Map<Vertex, Set<Vertex>>, u: Vertex, v: Vertex)
    requires
        !m.dom().contains(u) || !m.dom().contains(v),
    ensures
        after_add_edge(m, u, v) == m,
        forall|w: Vertex| m.dom().contains(w) ==> after_add_edge(m, u, v)[w] == m[w],
{
}

/// One invalid pair anywhere in a batch invalidates the whole batch, so
/// `add_edges` leaves the graph's edge sets identical to before the call.
pub proof fn lemma_add_edges_all_or_nothing(
    m: Map<Vertex, Set<Vertex>>,
    ps: Seq<(Vertex, Vertex)>,
    i: int,
)
    requires
        0 <= i < ps.len(),
        !pair_valid(m, ps[i]),
    ensures
        !all_pairs_valid(m, ps),
{
}

} // verus!
