//! The topological sorter: a depth-first traversal with per-vertex
//! colouring that produces a linear ordering of an acyclic graph, or
//! fails with `CycleDetected`.
//!
//! The traversal uses an explicit work stack of (vertex, next-neighbour
//! index) pairs instead of recursion, while keeping the classic colour
//! transitions: a vertex turns Gray when it is pushed and Black when it
//! is popped, and meeting a Gray neighbour during a scan is exactly a
//! cycle.

use vstd::prelude::*;
use crate::graph::DirectedGraph;
use crate::graph::GraphError;
use crate::graph::Vertex;

verus! {

/// There is a directed edge from `u` to `v` in the graph modelled by `m`.
pub open spec fn spec_edge(m: Map<Vertex, Set<Vertex>>, u: Vertex, v: Vertex) -> bool {
    m.dom().contains(u) && m[u].contains(v)
}

/// `p` is a closed walk of the graph modelled by `m`: consecutive
/// vertices are joined by edges and a final edge returns to the start.
pub open spec fn is_cycle(m: Map<Vertex, Set<Vertex>>, p: Seq<Vertex>) -> bool {
    &&& p.len() > 0
    &&& (forall|k: int| 0 <= k < p.len() - 1 ==> spec_edge(m, #[trigger] p[k], p[k + 1]))
    &&& spec_edge(m, p[p.len() - 1], p[0])
}

/// The graph modelled by `m` contains a cycle: it admits a closed walk.
pub open spec fn has_cycle(m: Map<Vertex, Set<Vertex>>) -> bool {
    exists|p: Seq<Vertex>| is_cycle(m, p)
}

/// `s` is a topological order of the graph modelled by `m`: it lists
/// every vertex exactly once, and every edge points forward in it.
pub open spec fn is_topological_order(m: Map<Vertex, Set<Vertex>>, s: Seq<Vertex>) -> bool {
    &&& s.no_duplicates()
    &&& (forall|v: Vertex| #[trigger] s.contains(v) <==> m.dom().contains(v))
    &&& (forall|i: int, j: int|
        0 <= i < s.len() && 0 <= j < s.len() && #[trigger] spec_edge(m, s[i], s[j]) ==> i < j)
}

/// Every vertex of a closed walk has an outgoing edge along the walk,
/// so it exists in the graph and stands in any topological order.
proof fn lemma_walk_vertex_in_order(
    m: Map<Vertex, Set<Vertex>>,
    s: Seq<Vertex>,
    p: Seq<Vertex>,
    t: int,
)
    requires
        is_topological_order(m, s),
        is_cycle(m, p),
        0 <= t < p.len(),
    ensures
        s.contains(p[t]),
        0 <= s.index_of(p[t]) < s.len(),
        s[s.index_of(p[t])] == p[t],
{
    if t < p.len() - 1 {
        assert(spec_edge(m, p[t], p[t + 1]));
    } else {
        assert(spec_edge(m, p[t], p[0]));
    }
    assert(s.contains(p[t]));
}

/// Walking along a closed walk can only move forward through a
/// topological order.
proof fn lemma_walk_moves_forward(
    m: Map<Vertex, Set<Vertex>>,
    s: Seq<Vertex>,
    p: Seq<Vertex>,
    t: int,
)
    requires
        is_topological_order(m, s),
        is_cycle(m, p),
        0 <= t < p.len(),
    ensures
        s.index_of(p[0]) <= s.index_of(p[t]),
    decreases t,
{
    lemma_walk_vertex_in_order(m, s, p, t);
    if t > 0 {
        lemma_walk_moves_forward(m, s, p, t - 1);
        lemma_walk_vertex_in_order(m, s, p, t - 1);
        let a = s.index_of(p[t - 1]);
        let b = s.index_of(p[t]);
        assert(spec_edge(m, s[a], s[b]));
    }
}

/// A topological order certifies acyclicity: no graph that admits one
/// contains a closed walk, since the walk's closing edge would have to
/// point backward in the order.
pub proof fn lemma_topological_order_excludes_cycles(m: Map<Vertex, Set<Vertex>>, s: Seq<Vertex>)
    requires
        is_topological_order(m, s),
    ensures
        !has_cycle(m),
{
    assert forall|p: Seq<Vertex>| !is_cycle(m, p) by {
        if is_cycle(m, p) {
            let last = p.len() - 1;
            lemma_walk_moves_forward(m, s, p, last);
            lemma_walk_vertex_in_order(m, s, p, last);
            lemma_walk_vertex_in_order(m, s, p, 0);
            let a = s.index_of(p[last]);
            let b = s.index_of(p[0]);
            assert(spec_edge(m, s[a], s[b]));
        }
    }
}

/// Traversal state of one vertex during a sort: White is unvisited,
/// Gray is on the active depth-first path, Black is fully processed.
#[derive(Clone, Copy, Debug, PartialEq, Eq, Structural)]
enum Color {
    White,
    Gray,
    Black,
}

/// How many entries of the colouring are still White.
spec fn count_white(c: Seq<Color>) -> nat
    decreases c.len(),
{
    if c.len() == 0 {
        0
    } else {
        count_white(c.drop_last()) + (if c.last() is White {
            1nat
        } else {
            0nat
        })
    }
}

/// Colouring a White vertex Gray or Black lowers the White count by one.
proof fn lemma_count_white_leaves(c: Seq<Color>, i: int, x: Color)
    requires
        0 <= i < c.len(),
        c[i] is White,
        !(x is White),
    ensures
        count_white(c.update(i, x)) + 1 == count_white(c),
    decreases c.len(),
{
    let t = c.update(i, x);
    if i == c.len() - 1 {
        assert(t.drop_last() =~= c.drop_last());
    } else {
        assert(t.drop_last() =~= c.drop_last().update(i, x));
        lemma_count_white_leaves(c.drop_last(), i, x);
        assert(t.last() == c.last());
    }
}

/// Recolouring a non-White vertex keeps the White count.
proof fn lemma_count_white_stays(c: Seq<Color>, i: int, x: Color)
    requires
        0 <= i < c.len(),
        !(c[i] is White),
        !(x is White),
    ensures
        count_white(c.update(i, x)) == count_white(c),
    decreases c.len(),
{
    let t = c.update(i, x);
    if i == c.len() - 1 {
        assert(t.drop_last() =~= c.drop_last());
    } else {
        assert(t.drop_last() =~= c.drop_last().update(i, x));
        lemma_count_white_stays(c.drop_last(), i, x);
        assert(t.last() == c.last());
    }
}

/// The neighbour scan still owed by one stack entry.
spec fn entry_work(g: DirectedGraph, e: (Vertex, usize)) -> nat {
    if e.1 <= g.spec_adj(e.0).len() {
        (g.spec_adj(e.0).len() - e.1) as nat
    } else {
        0
    }
}

/// The neighbour scans still owed by the whole traversal stack.
spec fn stack_work(g: DirectedGraph, st: Seq<(Vertex, usize)>) -> nat
    decreases st.len(),
{
    if st.len() == 0 {
        0
    } else {
        stack_work(g, st.drop_last()) + entry_work(g, st.last())
    }
}

/// The vertex `v` stands somewhere on the traversal stack.
spec fn on_stack(st: Seq<(Vertex, usize)>, v: Vertex) -> bool {
    exists|k: int| 0 <= k < st.len() && (#[trigger] st[k]).0 == v
}

/// An already-scanned neighbour of a stack entry is either finished
/// (Black) or the neighbour through which the entry just above was
/// entered.
spec fn processed_ok(
    g: DirectedGraph,
    c: Seq<Color>,
    st: Seq<(Vertex, usize)>,
    k: int,
    j: int,
) -> bool {
    let w = g.spec_adj(st[k].0)[j];
    ||| (w < c.len() && c[w as int] is Black)
    ||| (k + 1 < st.len() && j == st[k].1 - 1 && w == st[k + 1].0)
}

/// Colouring basics: one colour per possible identifier, and only
/// vertices of the graph ever leave White.
spec fn inv_colors(m: Map<Vertex, Set<Vertex>>, bound: usize, c: Seq<Color>) -> bool {
    &&& c.len() == bound
    &&& (forall|v: Vertex| m.dom().contains(v) ==> v < bound)
    &&& (forall|v: Vertex| v < bound && !((#[trigger] c[v as int]) is White) ==> m.dom().contains(v))
}

/// The finish list holds exactly the Black vertices, each once, and
/// each vertex only after all of its out-neighbours.
spec fn inv_order(m: Map<Vertex, Set<Vertex>>, c: Seq<Color>, order: Seq<Vertex>) -> bool {
    &&& order.no_duplicates()
    &&& (forall|k: int|
        0 <= k < order.len() ==> m.dom().contains(#[trigger] order[k]) && order[k] < c.len()
            && c[order[k] as int] is Black)
    &&& (forall|v: Vertex| v < c.len() && (#[trigger] c[v as int]) is Black ==> order.contains(v))
    &&& (forall|k: int, u: Vertex|
        0 <= k < order.len() && (#[trigger] m[order[k]].contains(u)) ==> order.subrange(
            0,
            k,
        ).contains(u))
}

/// The traversal stack lists the Gray vertices in depth order, each
/// once; every entry below the top points at the entry above through
/// the neighbour it is currently expanding, and everything an entry
/// has already scanned is settled.
spec fn inv_stack(g: DirectedGraph, c: Seq<Color>, st: Seq<(Vertex, usize)>) -> bool {
    &&& (forall|k: int|
        0 <= k < st.len() ==> {
            &&& g@.dom().contains((#[trigger] st[k]).0)
            &&& st[k].0 < c.len()
            &&& c[st[k].0 as int] is Gray
            &&& st[k].1 <= g.spec_adj(st[k].0).len()
        })
    &&& (forall|k1: int, k2: int|
        0 <= k1 < st.len() && 0 <= k2 < st.len() && k1 != k2 ==> (#[trigger] st[k1]).0 != (
        #[trigger] st[k2]).0)
    &&& (forall|k: int|
        0 <= k < st.len() - 1 ==> 1 <= (#[trigger] st[k]).1 && g.spec_adj(st[k].0)[st[k].1 - 1]
            == st[k + 1].0)
    &&& (forall|v: Vertex| v < c.len() && (#[trigger] c[v as int]) is Gray ==> on_stack(st, v))
    &&& (forall|k: int, j: int|
        0 <= k < st.len() && 0 <= j < st[k].1 ==> #[trigger] processed_ok(g, c, st, k, j))
}

/// Produce a linear ordering of the graph's vertices in which every
/// edge points forward, by iterative depth-first traversal. Fails with
/// `CycleDetected` — and produces no schedule — exactly when the graph
/// contains a cycle. Vertices with no dependency relation keep the
/// relative order of the top-level vertex scan.
pub fn topological_sort(g: &DirectedGraph) -> (r: Result<Vec<Vertex>, GraphError>)
    requires
        g.wf(),
    ensures
        match r {
            Ok(schedule) => !has_cycle(g@) && is_topological_order(g@, schedule@),
            Err(e) => e == GraphError::CycleDetected && has_cycle(g@),
        },
{
    let ghost m = g@;
    let bound = g.id_bound();
    let mut color: Vec<Color> = Vec::new();
    while color.len() < bound
        invariant
            color@.len() <= bound,
            forall|t: int| 0 <= t < color@.len() ==> (#[trigger] color@[t]) is White,
        decreases bound - color@.len(),
    {
        color.push(Color::White);
    }
    let mut order: Vec<Vertex> = Vec::new();
    let verts = g.vertices();
    let mut x: usize = 0;
    while x < verts.len()
        invariant
            g.wf(),
            m == g@,
            x <= verts@.len(),
            forall|v: Vertex| #[trigger] verts@.contains(v) <==> m.dom().contains(v),
            inv_colors(m, bound, color@),
            inv_order(m, color@, order@),
            forall|w: Vertex| w < bound ==> !((#[trigger] color@[w as int]) is Gray),
            forall|y: int|
                0 <= y < x ==> verts@[y] < bound && color@[#[trigger] verts@[y] as int] is Black,
        decreases verts@.len() - x,
    {
        let v = verts[x];
        proof {
            assert(verts@.contains(verts@[x as int]));
        }
        if color[v] == Color::White {
            let mut stack: Vec<(Vertex, usize)> = Vec::new();
            color[v] = Color::Gray;
            stack.push((v, 0));
            proof {
                assert forall|w: Vertex|
                    w < bound && (#[trigger] color@[w as int]) is Gray implies on_stack(
                    stack@,
                    w,
                ) by {
                    assert(stack@[0].0 == v);
                }
            }
            while stack.len() > 0
                invariant
                    g.wf(),
                    m == g@,
                    inv_colors(m, bound, color@),
                    inv_order(m, color@, order@),
                    inv_stack(*g, color@, stack@),
                    v < bound,
                    !((color@[v as int]) is White),
                    forall|y: int|
                        0 <= y < x ==> verts@[y] < bound && color@[#[trigger] verts@[y] as int]
                            is Black,
                decreases count_white(color@), stack_work(*g, stack@) + stack@.len(),
            {
                let ghost c0 = color@;
                let ghost st0 = stack@;
                let top = stack.len() - 1;
                let e = stack[top];
                let v_top = e.0;
                let i = e.1;
                let deg = g.out_degree(v_top);
                if i < deg {
                    let u = g.neighbor(v_top, i);
                    stack[top] = (v_top, i + 1);
                    let ghost st1 = stack@;
                    proof {
                        g.lemma_adj_row(v_top);
                        assert(g.spec_adj(v_top).contains(g.spec_adj(v_top)[i as int]));
                        assert(m.dom().contains(u));
                        assert(u < bound);
                        // the bump alone keeps every part of the stack invariant
                        assert(st1.drop_last() =~= st0.drop_last());
                        assert(entry_work(*g, st1.last()) + 1 == entry_work(*g, st0.last()));
                        assert(stack_work(*g, st1) + 1 == stack_work(*g, st0));
                        assert forall|w: Vertex|
                            w < color@.len() && (#[trigger] color@[w as int]) is Gray implies on_stack(
                            st1,
                            w,
                        ) by {
                            let k = choose|k: int| 0 <= k < st0.len() && (#[trigger] st0[k]).0 == w;
                            assert(st1[k].0 == w);
                        }
                    }
                    let cu = color[u];
                    if cu == Color::White {
                        color[u] = Color::Gray;
                        stack.push((u, 0));
                        proof {
                            lemma_count_white_leaves(c0, u as int, Color::Gray);
                            let c1 = color@;
                            let st2 = stack@;
                            assert(st2.drop_last() =~= st1);
                            // order facts survive: no Black vertex changed colour
                            assert forall|w: Vertex|
                                w < c1.len() && (#[trigger] c1[w as int]) is Black implies order@.contains(
                                w,
                            ) by {
                                assert(c0[w as int] is Black);
                            }
                            // every Gray vertex is on the extended stack
                            assert forall|w: Vertex|
                                w < c1.len() && (#[trigger] c1[w as int]) is Gray implies on_stack(
                                st2,
                                w,
                            ) by {
                                if w == u {
                                    assert(st2[st2.len() - 1].0 == u);
                                } else {
                                    assert(c0[w as int] is Gray);
                                    let k = choose|k: int|
                                        0 <= k < st1.len() && (#[trigger] st1[k]).0 == w;
                                    assert(st2[k].0 == w);
                                }
                            }
                            // scanned neighbours stay settled
                            assert forall|k: int, j: int|
                                0 <= k < st2.len() && 0 <= j < st2[k].1 implies #[trigger] processed_ok(
                                *g,
                                c1,
                                st2,
                                k,
                                j,
                            ) by {
                                if k < st0.len() - 1 {
                                    assert(processed_ok(*g, c0, st0, k, j));
                                } else if k == st0.len() - 1 {
                                    if j < i {
                                        assert(processed_ok(*g, c0, st0, k, j));
                                    } else {
                                        assert(j == i);
                                        assert(g.spec_adj(v_top)[j] == u);
                                        assert(st2[k + 1].0 == u);
                                    }
                                }
                            }
                        }
                    } else if cu == Color::Gray {
                        proof {
                            // `u` is Gray, so it stands on the stack; the
                            // stack from `u` up to the top, closed by the
                            // edge just scanned, is a cycle
                            assert(on_stack(st1, u));
                            let k0 = choose|k: int| 0 <= k < st1.len() && (#[trigger] st1[k]).0 == u;
                            let p = Seq::new((st1.len() - k0) as nat, |t: int| st1[k0 + t].0);
                            assert forall|k: int| 0 <= k < p.len() - 1 implies spec_edge(
                                m,
                                #[trigger] p[k],
                                p[k + 1],
                            ) by {
                                assert(st1[k0 + k].1 >= 1);
                                assert(g.spec_adj(st1[k0 + k].0)[st1[k0 + k].1 - 1] == st1[k0 + k
                                    + 1].0);
                                g.lemma_adj_row(st1[k0 + k].0);
                                assert(g.spec_adj(st1[k0 + k].0).contains(st1[k0 + k + 1].0));
                            }
                            assert(p[p.len() - 1] == v_top);
                            g.lemma_adj_row(v_top);
                            assert(g.spec_adj(v_top).contains(u));
                            assert(spec_edge(m, p[p.len() - 1], p[0]));
                            assert(is_cycle(m, p));
                        }
                        return Err(GraphError::CycleDetected);
                    } else {
                        proof {
                            // a Black neighbour needs no work; the bump is
                            // already settled
                            assert(cu == Color::Black);
                            assert(c0[u as int] is Black);
                            assert forall|k: int, j: int|
                                0 <= k < st1.len() && 0 <= j < st1[k].1 implies #[trigger] processed_ok(
                                *g,
                                c0,
                                st1,
                                k,
                                j,
                            ) by {
                                if k < st0.len() - 1 {
                                    assert(processed_ok(*g, c0, st0, k, j));
                                } else {
                                    if j < i {
                                        assert(processed_ok(*g, c0, st0, k, j));
                                    } else {
                                        assert(j == i);
                                        assert(g.spec_adj(v_top)[j] == u);
                                    }
                                }
                            }
                        }
                    }
                } else {
                    // the whole adjacency row of the top vertex is settled:
                    // finish it
                    let _ = stack.pop();
                    color[v_top] = Color::Black;
                    let ghost o0 = order@;
                    order.push(v_top);
                    let ghost c1 = color@;
                    let ghost st1 = stack@;
                    let ghost o1 = order@;
                    proof {
                        assert(i == deg);
                        assert(st1 =~= st0.drop_last());
                        lemma_count_white_stays(c0, v_top as int, Color::Black);
                        assert(stack_work(*g, st0) == stack_work(*g, st1) + entry_work(*g, st0.last()));
                        assert(entry_work(*g, st0.last()) == 0);
                        g.lemma_adj_row(v_top);
                        // v_top was Gray, so it is not yet in the finish list
                        assert(!o0.contains(v_top)) by {
                            if o0.contains(v_top) {
                                let k = choose|k: int| 0 <= k < o0.len() && o0[k] == v_top;
                                assert(c0[o0[k] as int] is Black);
                            }
                        }
                        assert(o1.no_duplicates()) by {
                            assert forall|k1: int, k2: int|
                                0 <= k1 < o1.len() && 0 <= k2 < o1.len() && k1
                                    != k2 implies o1[k1] != o1[k2] by {
                                if k1 < o0.len() && k2 < o0.len() {
                                    assert(o0[k1] != o0[k2]);
                                } else if k1 < o0.len() {
                                    assert(o0[k1] != v_top);
                                } else {
                                    assert(o0[k2] != v_top);
                                }
                            }
                        }
                        // every out-neighbour of the finished vertex is Black,
                        // hence already in the finish list
                        assert forall|k: int, u: Vertex|
                            0 <= k < o1.len() && (#[trigger] m[o1[k]].contains(u)) implies o1.subrange(
                            0,
                            k,
                        ).contains(u) by {
                            if k < o0.len() {
                                assert(m[o0[k]].contains(u));
                                assert(o0.subrange(0, k).contains(u));
                                assert(o1.subrange(0, k) =~= o0.subrange(0, k));
                            } else {
                                assert(o1[k] == v_top);
                                assert(g.spec_adj(v_top).contains(u));
                                let j = choose|j: int|
                                    0 <= j < g.spec_adj(v_top).len() && g.spec_adj(v_top)[j] == u;
                                assert(processed_ok(*g, c0, st0, st0.len() - 1, j));
                                assert(u < c0.len() && c0[u as int] is Black);
                                assert(o0.contains(u));
                                assert(o1.subrange(0, k) =~= o0);
                            }
                        }
                        // Black vertices are the old ones plus v_top
                        assert forall|w: Vertex|
                            w < c1.len() && (#[trigger] c1[w as int]) is Black implies o1.contains(
                            w,
                        ) by {
                            if w == v_top {
                                assert(o1[o1.len() - 1] == v_top);
                            } else {
                                assert(c0[w as int] is Black);
                                assert(o0.contains(w));
                                let k = choose|k: int| 0 <= k < o0.len() && o0[k] == w;
                                assert(o1[k] == w);
                            }
                        }
                        // remaining Gray vertices keep a place on the stack
                        assert forall|w: Vertex|
                            w < c1.len() && (#[trigger] c1[w as int]) is Gray implies on_stack(
                            st1,
                            w,
                        ) by {
                            assert(c0[w as int] is Gray);
                            let k = choose|k: int| 0 <= k < st0.len() && (#[trigger] st0[k]).0 == w;
                            assert(w != v_top);
                            assert(k < st0.len() - 1);
                            assert(st1[k].0 == w);
                        }
                        // scanned neighbours of remaining entries stay settled
                        assert forall|k: int, j: int|
                            0 <= k < st1.len() && 0 <= j < st1[k].1 implies #[trigger] processed_ok(
                            *g,
                            c1,
                            st1,
                            k,
                            j,
                        ) by {
                            assert(processed_ok(*g, c0, st0, k, j));
                            let w = g.spec_adj(st0[k].0)[j];
                            if w < c0.len() && c0[w as int] is Black {
                                assert(c1[w as int] is Black);
                            } else {
                                assert(k + 1 < st0.len() && j == st0[k].1 - 1 && w == st0[k + 1].0);
                                if k + 1 == st0.len() - 1 {
                                    assert(w == v_top);
                                    assert(c1[w as int] is Black);
                                } else {
                                    assert(c1[w as int] is Gray);
                                }
                            }
                        }
                    }
                }
            }
            proof {
                // the stack is empty, so no vertex is Gray and the chosen
                // root is Black
                assert forall|w: Vertex|
                    w < bound implies !((#[trigger] color@[w as int]) is Gray) by {
                    if color@[w as int] is Gray {
                        assert(on_stack(stack@, w));
                    }
                }
                assert(color@[v as int] is Black);
            }
        } else {
            proof {
                assert(!(color@[v as int] is Gray));
                assert(color@[v as int] is Black);
            }
        }
        x = x + 1;
    }
    // every vertex is finished; the schedule is the finish list reversed
    let n = order.len();
    let mut schedule: Vec<Vertex> = Vec::new();
    let mut t: usize = 0;
    while t < n
        invariant
            t <= n,
            n == order@.len(),
            schedule@.len() == t,
            forall|q: int| 0 <= q < t ==> #[trigger] schedule@[q] == order@[n - 1 - q],
        decreases n - t,
    {
        schedule.push(order[n - 1 - t]);
        t = t + 1;
    }
    proof {
        let o = order@;
        let s = schedule@;
        let ni = n as int;
        assert forall|w: Vertex| #[trigger] s.contains(w) <==> m.dom().contains(w) by {
            if s.contains(w) {
                let q = choose|q: int| 0 <= q < s.len() && s[q] == w;
                assert(o[ni - 1 - q] == w);
                assert(m.dom().contains(o[ni - 1 - q]));
            }
            if m.dom().contains(w) {
                assert(verts@.contains(w));
                let y = choose|y: int| 0 <= y < verts@.len() && verts@[y] == w;
                assert(color@[verts@[y] as int] is Black);
                assert(o.contains(w));
                let k = choose|k: int| 0 <= k < o.len() && o[k] == w;
                assert(s[ni - 1 - k] == w);
            }
        }
        assert(s.no_duplicates()) by {
            assert forall|q1: int, q2: int|
                0 <= q1 < s.len() && 0 <= q2 < s.len() && q1 != q2 implies s[q1] != s[q2] by {
                assert(s[q1] == o[ni - 1 - q1]);
                assert(s[q2] == o[ni - 1 - q2]);
            }
        }
        assert forall|i: int, j: int|
            0 <= i < s.len() && 0 <= j < s.len() && #[trigger] spec_edge(m, s[i], s[j]) implies i
            < j by {
            let ki = ni - 1 - i;
            let kj = ni - 1 - j;
            assert(s[i] == o[ki] && s[j] == o[kj]);
            assert(m[o[ki]].contains(o[kj]));
            assert(o.subrange(0, ki).contains(o[kj]));
            let q = choose|q: int| 0 <= q < ki && o.subrange(0, ki)[q] == o[kj];
            assert(o[q] == o[kj]);
            assert(q == kj);
        }
        assert(is_topological_order(m, s));
        lemma_topological_order_excludes_cycles(m, s);
    }
    Ok(schedule)
}

} // verus!
