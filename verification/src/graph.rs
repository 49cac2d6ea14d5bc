//! The flow network: nodes with excess and height, edges with a signed
//! flow bounded by a fixed capacity, a read-only adjacency table, and the
//! FIFO queue of active node indices.
//!
//! Node `0` is the source and node `n - 1` the sink. The flow of an edge
//! is signed relative to its `u -> v` direction, so one integer carries
//! both directions of traffic.

use std::collections::VecDeque;
use vstd::prelude::*;

use crate::sums::iabs;
use crate::sums::lemma_sum_cap_nonneg;
use crate::sums::lemma_sum_cap_take_le;
use crate::sums::lemma_sum_cap_take_succ;
use crate::sums::lemma_sum_excess_zero;
use crate::sums::net_inflow;
use crate::sums::sum_cap;
use crate::sums::sum_excess;

verus! {

/// A node: its own index, its excess preflow, and its height label.
#[derive(Clone, Copy, PartialEq, Eq, Structural, Debug)]
pub struct Node {
    pub i: usize,
    pub e: i32,
    pub h: i32,
}

/// An edge between `u` and `v` with capacity `c` and signed flow `f`
/// (positive means from `u` toward `v`).
#[derive(Clone, Copy, PartialEq, Eq, Structural, Debug)]
pub struct Edge {
    pub u: usize,
    pub v: usize,
    pub f: i32,
    pub c: i32,
}

impl Node {
    /// A fresh node with zero excess and zero height.
    pub fn new(ii: usize) -> (nd: Node)
        ensures
            nd == (Node { i: ii, e: 0, h: 0 }),
    {
        Node { i: ii, e: 0, h: 0 }
    }
}

impl Edge {
    /// A fresh edge carrying no flow yet.
    pub fn new(uu: usize, vv: usize, cc: i32) -> (ed: Edge)
        ensures
            ed == (Edge { u: uu, v: vv, f: 0, c: cc }),
    {
        Edge { u: uu, v: vv, f: 0, c: cc }
    }
}

/// Does node `x` touch edge `e`?
pub open spec fn incident(e: Edge, x: int) -> bool {
    e.u == x || e.v == x
}

/// The other endpoint of `e` as seen from `x`.
pub open spec fn far_end(e: Edge, x: int) -> int {
    if e.u == x {
        e.v as int
    } else {
        e.u as int
    }
}

/// Capacity still available on `e` in the direction away from `x`.
pub open spec fn residual(e: Edge, x: int) -> int {
    if e.u == x {
        e.c - e.f
    } else {
        e.c + e.f
    }
}

/// Signed net contribution of edge `e` to the inflow of node `w`.
pub open spec fn flow_into(e: Edge, w: int) -> int {
    (if e.v == w {
        e.f as int
    } else {
        0
    }) - (if e.u == w {
        e.f as int
    } else {
        0
    })
}

/// The whole network. `n`, the edge endpoints and capacities, and `adj`
/// are fixed after construction; excesses, heights, flows and the queue
/// are the running state.
pub struct Graph {
    pub n: usize,
    pub node: Vec<Node>,
    pub edge: Vec<Edge>,
    pub adj: Vec<Vec<usize>>,
    pub excess: VecDeque<usize>,
}

/// An edge acceptable as construction input: endpoints in range and
/// distinct, a nonnegative capacity, and no flow yet.
pub open spec fn edge_input_ok(e: Edge, n: int) -> bool {
    &&& (e.u as int) < n
    &&& (e.v as int) < n
    &&& e.u != e.v
    &&& e.c >= 0
    &&& e.f == 0
}

/// What construction accepts: at least a source and a distinct sink,
/// a node count small enough that twice its value (the ceiling on any
/// height a run can produce) fits an `i32`, acceptable edges, and a
/// total capacity small enough that no excess or residual computation
/// can overflow an `i32`.
pub open spec fn ok_input(n: int, es: Seq<Edge>) -> bool {
    &&& 2 <= n <= 0x3fff_ffff
    &&& forall|j: int| 0 <= j < es.len() ==> edge_input_ok(#[trigger] es[j], n)
    &&& sum_cap(es) <= 0x3fff_ffff
}

/// An edge in a live network: endpoints valid and distinct, and the flow
/// within the capacity band in both directions.
pub open spec fn edge_ok(e: Edge, n: int) -> bool {
    &&& (e.u as int) < n
    &&& (e.v as int) < n
    &&& e.u != e.v
    &&& e.c >= 0
    &&& iabs(e.f as int) <= e.c as int
}

pub open spec fn nodes_ok(g: Graph) -> bool {
    forall|i: int|
        0 <= i < g.node@.len() ==> {
            let nd = #[trigger] g.node@[i];
            nd.i == i && nd.e >= 0 && nd.h >= 0
        }
}

pub open spec fn edges_ok(g: Graph) -> bool {
    forall|j: int| 0 <= j < g.edge@.len() ==> edge_ok(#[trigger] g.edge@[j], g.n as int)
}

/// Every adjacency entry is a real edge touching its node.
pub open spec fn adj_sound(g: Graph) -> bool {
    forall|w: int, k: int|
        0 <= w < g.adj@.len() && 0 <= k < g.adj@[w]@.len() ==> {
            let j = #[trigger] g.adj@[w]@[k];
            (j as int) < g.edge@.len() && incident(g.edge@[j as int], w)
        }
}

/// Every edge touching a node is listed for that node.
pub open spec fn adj_complete(g: Graph) -> bool {
    forall|w: int, j: int|
        0 <= w < g.adj@.len() && 0 <= j < g.edge@.len() && #[trigger] incident(g.edge@[j], w)
            ==> g.adj@[w]@.contains(j as usize)
}

/// Adjacency lists hold edge indices in strictly increasing order, so
/// each incident edge is listed exactly once.
pub open spec fn adj_sorted(g: Graph) -> bool {
    forall|w: int, k1: int, k2: int|
        0 <= w < g.adj@.len() && 0 <= k1 < k2 < g.adj@[w]@.len() ==> #[trigger] g.adj@[w]@[k1]
            < #[trigger] g.adj@[w]@[k2]
}

pub open spec fn queue_ok(g: Graph) -> bool {
    forall|k: int| 0 <= k < g.excess@.len() ==> (#[trigger] g.excess@[k] as int) < g.n as int
}

/// Well-formedness of the network, preserved by every operation: table
/// sizes agree, nodes and edges are in range, excesses are nonnegative,
/// adjacency is exact, and the total excess never exceeds the total
/// capacity (which keeps all arithmetic inside `i32`).
pub open spec fn wf(g: Graph) -> bool {
    &&& 2 <= g.n as int <= 0x3fff_ffff
    &&& g.node@.len() == g.n
    &&& g.adj@.len() == g.n
    &&& nodes_ok(g)
    &&& edges_ok(g)
    &&& adj_sound(g)
    &&& adj_complete(g)
    &&& adj_sorted(g)
    &&& queue_ok(g)
    &&& sum_cap(g.edge@) <= 0x3fff_ffff
    &&& sum_excess(g.node@) <= sum_cap(g.edge@)
}

/// Conservation: away from the source, stored excess equals the net
/// inflow recorded on the edges.
pub open spec fn conserves(g: Graph) -> bool {
    forall|i: int|
        1 <= i < g.n as int ==> (#[trigger] g.node@[i]).e as int == net_inflow(g.edge@, i)
}

/// The valid-labeling invariant: across any edge with residual capacity,
/// the height drops by at most one in the direction of that capacity.
pub open spec fn height_ok(g: Graph) -> bool {
    forall|j: int|
        0 <= j < g.edge@.len() ==> {
            let e = #[trigger] g.edge@[j];
            &&& (residual(e, e.u as int) > 0 ==> g.node@[e.u as int].h as int <= g.node@[e.v
                as int].h as int + 1)
            &&& (residual(e, e.v as int) > 0 ==> g.node@[e.v as int].h as int <= g.node@[e.u
                as int].h as int + 1)
        }
}

/// Edge `j` admits a push away from node `x`: strictly higher than the
/// far end, with residual capacity left in that direction.
pub open spec fn admissible(g: Graph, x: int, j: int) -> bool {
    let e = g.edge@[j];
    &&& g.node@[x].h as int > g.node@[far_end(e, x)].h as int
    &&& residual(e, x) > 0
}

/// Every internal node holding excess sits in the queue, so an empty
/// queue witnesses that no work remains.
pub open spec fn active_queued(g: Graph) -> bool {
    forall|i: int|
        1 <= i < g.n as int - 1 && (#[trigger] g.node@[i]).e > 0 ==> g.excess@.contains(
            i as usize,
        )
}

/// A network as construction delivers it: well formed, no flow, no
/// excess, all heights zero, queue empty.
pub open spec fn initial(g: Graph) -> bool {
    &&& wf(g)
    &&& forall|i: int|
        0 <= i < g.node@.len() ==> (#[trigger] g.node@[i]).e == 0 && g.node@[i].h == 0
    &&& forall|j: int| 0 <= j < g.edge@.len() ==> (#[trigger] g.edge@[j]).f == 0
    &&& g.excess@.len() == 0
}

impl Graph {
    /// Builds the network from a node count and an edge list.
    ///
    /// Construction fails exactly when the input is malformed: fewer
    /// than two nodes, a node count whose doubled value (the ceiling on
    /// any height a run can produce) overflows an `i32`, an edge
    /// endpoint out of range, a self-loop, a negative capacity, an edge
    /// already carrying flow, or a total capacity beyond the bound that
    /// keeps the arithmetic of a run exact.
    pub fn new(n: usize, edges: Vec<Edge>) -> (r: Option<Graph>)
        ensures
            r is Some <==> ok_input(n as int, edges@),
            match r {
                Some(g) => g.n == n && g.edge@ == edges@ && initial(g),
                None => true,
            },
    {
        if n < 2 || n > 0x3fff_ffff {
            return None;
        }
        let m = edges.len();
        let mut j: usize = 0;
        while j < m
            invariant
                m == edges.len(),
                j <= m,
                forall|k: int| 0 <= k < j ==> edge_input_ok(#[trigger] edges@[k], n as int),
            decreases m - j,
        {
            let e = edges[j];
            if e.u >= n || e.v >= n || e.u == e.v || e.c < 0 || e.f != 0 {
                proof {
                    assert(!edge_input_ok(edges@[j as int], n as int));
                }
                return None;
            }
            j += 1;
        }
        let mut total: i64 = 0;
        j = 0;
        while j < m
            invariant
                m == edges.len(),
                j <= m,
                forall|k: int| 0 <= k < m ==> edge_input_ok(#[trigger] edges@[k], n as int),
                total == sum_cap(edges@.take(j as int)),
                0 <= total <= 0x3fff_ffff,
            decreases m - j,
        {
            proof {
                lemma_sum_cap_take_succ(edges@, j as int);
            }
            let t2: i64 = total + edges[j].c as i64;
            if t2 > 0x3fff_ffff {
                proof {
                    lemma_sum_cap_take_le(edges@, j as int + 1);
                }
                return None;
            }
            total = t2;
            j += 1;
        }
        proof {
            assert(edges@.take(m as int) =~= edges@);
        }
        let mut node: Vec<Node> = Vec::new();
        let mut i: usize = 0;
        while i < n
            invariant
                node@.len() == i,
                i <= n,
                forall|k: int| 0 <= k < i ==> #[trigger] node@[k] == (Node { i: k as usize, e: 0, h: 0 }),
            decreases n - i,
        {
            node.push(Node::new(i));
            i += 1;
        }
        let mut adj: Vec<Vec<usize>> = Vec::new();
        let mut w: usize = 0;
        while w < n
            invariant
                adj@.len() == w,
                w <= n,
                m == edges.len(),
                forall|x: int, k: int|
                    0 <= x < w && 0 <= k < adj@[x]@.len() ==> {
                        let j2 = #[trigger] adj@[x]@[k];
                        (j2 as int) < m && incident(edges@[j2 as int], x)
                    },
                forall|x: int, j2: int|
                    0 <= x < w && 0 <= j2 < m && #[trigger] incident(edges@[j2], x)
                        ==> adj@[x]@.contains(j2 as usize),
                forall|x: int, k1: int, k2: int|
                    0 <= x < w && 0 <= k1 < k2 < adj@[x]@.len() ==> #[trigger] adj@[x]@[k1]
                        < #[trigger] adj@[x]@[k2],
            decreases n - w,
        {
            let mut row: Vec<usize> = Vec::new();
            let mut j2: usize = 0;
            while j2 < m
                invariant
                    m == edges.len(),
                    j2 <= m,
                    forall|k: int|
                        0 <= k < row@.len() ==> {
                            let j3 = #[trigger] row@[k];
                            (j3 as int) < j2 && incident(edges@[j3 as int], w as int)
                        },
                    forall|j3: int|
                        0 <= j3 < j2 && #[trigger] incident(edges@[j3], w as int)
                            ==> row@.contains(j3 as usize),
                    forall|k1: int, k2: int|
                        0 <= k1 < k2 < row@.len() ==> #[trigger] row@[k1] < #[trigger] row@[k2],
                decreases m - j2,
            {
                let e = edges[j2];
                let ghost row0 = row@;
                if e.u == w || e.v == w {
                    row.push(j2);
                }
                proof {
                    assert forall|j3: int|
                        0 <= j3 < j2 + 1 && #[trigger] incident(edges@[j3], w as int)
                            implies row@.contains(j3 as usize) by {
                        if j3 == j2 {
                            assert(incident(edges@[j2 as int], w as int));
                            assert(row@[row@.len() - 1] == j2 as usize);
                        } else {
                            assert(row0.contains(j3 as usize));
                            let k = choose|k: int| 0 <= k < row0.len() && row0[k] == j3 as usize;
                            assert(row@[k] == j3 as usize);
                        }
                    }
                }
                j2 += 1;
            }
            adj.push(row);
            w += 1;
        }
        let excess: VecDeque<usize> = VecDeque::new();
        let g = Graph { n, node, edge: edges, adj, excess };
        proof {
            lemma_sum_excess_zero(g.node@);
            lemma_sum_cap_nonneg(g.edge@);
            assert forall|j4: int| 0 <= j4 < g.edge@.len() implies edge_ok(
                #[trigger] g.edge@[j4],
                g.n as int,
            ) by {
                assert(edge_input_ok(g.edge@[j4], n as int));
            }
            assert(wf(g));
        }
        Some(g)
    }
}

} // verus!
