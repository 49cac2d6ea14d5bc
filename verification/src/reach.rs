//! Residual reachability, and the height bound on active nodes.
//!
//! A node holding excess can always reach the source along residual
//! edges: were that false, every edge leaving its residual-reachable set
//! would be saturated outward, and by conservation the excess inside the
//! set would have nowhere to have come from. Under the labeling
//! invariant, heights drop by at most one per residual step, and a
//! reachable node is reachable within `n - 1` steps, so an active node
//! never stands above `2n - 1`. This bound is what lets the drain loop
//! terminate: relabels stay below a fixed budget, and every other step
//! consumes one of the remaining potentials.

use vstd::prelude::*;

use crate::cuts::cross_flow;
use crate::cuts::lemma_cut_exchange;
use crate::cuts::lemma_cut_flow_nonpos;
use crate::cuts::lemma_outside_net_pos;
use crate::graph::conserves;
use crate::graph::edge_ok;
use crate::graph::height_ok;
use crate::graph::residual;
use crate::graph::wf;
use crate::graph::Edge;
use crate::graph::Graph;

verus! {

/// Edge `e` lets flow move from `y` to `x` in the residual graph.
pub open spec fn residual_step(e: Edge, y: int, x: int) -> bool {
    &&& (e.u == y && e.v == x) || (e.v == y && e.u == x)
    &&& residual(e, y) > 0
}

/// Some edge lets flow move from `y` to `x`.
pub open spec fn residual_edge(g: Graph, y: int, x: int) -> bool {
    exists|j: int| 0 <= j < g.edge@.len() && residual_step(#[trigger] g.edge@[j], y, x)
}

/// `x` is reachable from `u` in at most `k` residual steps.
pub open spec fn reach(g: Graph, u: int, x: int, k: nat) -> bool
    decreases k,
{
    if k == 0 {
        x == u
    } else {
        reach(g, u, x, (k - 1) as nat) || (exists|y: int|
            reach(g, u, y, (k - 1) as nat) && #[trigger] residual_edge(g, y, x))
    }
}

pub proof fn lemma_reach_mono(g: Graph, u: int, x: int, k1: nat, k2: nat)
    requires
        reach(g, u, x, k1),
        k1 <= k2,
    ensures
        reach(g, u, x, k2),
    decreases k2,
{
    if k2 > k1 {
        lemma_reach_mono(g, u, x, k1, (k2 - 1) as nat);
    }
}

pub proof fn lemma_reach_in_range(g: Graph, u: int, x: int, k: nat)
    requires
        wf(g),
        0 <= u < g.n as int,
        reach(g, u, x, k),
    ensures
        0 <= x < g.n as int,
    decreases k,
{
    if k > 0 {
        if reach(g, u, x, (k - 1) as nat) {
            lemma_reach_in_range(g, u, x, (k - 1) as nat);
        } else {
            assert(exists|y: int|
                reach(g, u, y, (k - 1) as nat) && #[trigger] residual_edge(g, y, x));
            let y = choose|y: int|
                reach(g, u, y, (k - 1) as nat) && #[trigger] residual_edge(g, y, x);
            assert(residual_edge(g, y, x));
            let j = choose|j: int|
                0 <= j < g.edge@.len() && residual_step(#[trigger] g.edge@[j], y, x);
            assert(edge_ok(g.edge@[j], g.n as int));
        }
    }
}

/// Heights drop by at most one along each residual step.
pub proof fn lemma_reach_height(g: Graph, u: int, x: int, k: nat)
    requires
        wf(g),
        height_ok(g),
        0 <= u < g.n as int,
        reach(g, u, x, k),
    ensures
        g.node@[u].h as int <= g.node@[x].h as int + k,
    decreases k,
{
    if k == 0 {
    } else if reach(g, u, x, (k - 1) as nat) {
        lemma_reach_height(g, u, x, (k - 1) as nat);
    } else {
        assert(exists|y: int|
            reach(g, u, y, (k - 1) as nat) && #[trigger] residual_edge(g, y, x));
        let y = choose|y: int|
            reach(g, u, y, (k - 1) as nat) && #[trigger] residual_edge(g, y, x);
        lemma_reach_height(g, u, y, (k - 1) as nat);
        assert(residual_edge(g, y, x));
        let j = choose|j: int|
            0 <= j < g.edge@.len() && residual_step(#[trigger] g.edge@[j], y, x);
        let e = g.edge@[j];
        assert(edge_ok(e, g.n as int));
        if e.u == y {
            assert(residual(e, e.u as int) > 0);
        } else {
            assert(residual(e, e.v as int) > 0);
        }
    }
}

/// How many nodes below `i` are reachable within `k` steps.
pub open spec fn count_reach(g: Graph, u: int, k: nat, i: int) -> int
    decreases i,
{
    if i <= 0 {
        0
    } else {
        count_reach(g, u, k, i - 1) + (if reach(g, u, i - 1, k) {
            1int
        } else {
            0int
        })
    }
}

pub proof fn lemma_count_reach_bounds(g: Graph, u: int, k: nat, i: int)
    requires
        0 <= i,
    ensures
        0 <= count_reach(g, u, k, i) <= i,
    decreases i,
{
    if i > 0 {
        lemma_count_reach_bounds(g, u, k, i - 1);
    }
}

pub proof fn lemma_count_reach_mono(g: Graph, u: int, k1: nat, k2: nat, i: int)
    requires
        k1 <= k2,
        0 <= i,
    ensures
        count_reach(g, u, k1, i) <= count_reach(g, u, k2, i),
    decreases i,
{
    if i > 0 {
        lemma_count_reach_mono(g, u, k1, k2, i - 1);
        if reach(g, u, i - 1, k1) {
            lemma_reach_mono(g, u, i - 1, k1, k2);
        }
    }
}

/// A node newly reached at `k + 1` pushes the count strictly up.
pub proof fn lemma_count_reach_grow(g: Graph, u: int, k: nat, w: int, i: int)
    requires
        0 <= w < i,
        reach(g, u, w, k + 1),
        !reach(g, u, w, k),
    ensures
        count_reach(g, u, k + 1, i) >= count_reach(g, u, k, i) + 1,
    decreases i,
{
    if w == i - 1 {
        lemma_count_reach_mono(g, u, k, k + 1, i - 1);
    } else {
        lemma_count_reach_grow(g, u, k, w, i - 1);
        if reach(g, u, i - 1, k) {
            lemma_reach_mono(g, u, i - 1, k, k + 1);
        }
    }
}

pub proof fn lemma_count_reach_witness(g: Graph, u: int, k: nat, w: int, i: int)
    requires
        0 <= w < i,
        reach(g, u, w, k),
    ensures
        count_reach(g, u, k, i) >= 1,
    decreases i,
{
    lemma_count_reach_bounds(g, u, k, i - 1);
    if w < i - 1 {
        lemma_count_reach_witness(g, u, k, w, i - 1);
    }
}

/// One more step reaches nothing new.
pub open spec fn stable(g: Graph, u: int, k: nat) -> bool {
    forall|x: int| 0 <= x < g.n as int && #[trigger] reach(g, u, x, k + 1) ==> reach(g, u, x, k)
}

/// The reachable set stops growing within `n - 1` rounds: each unstable
/// round strictly enlarges it, and it never exceeds `n` nodes.
pub proof fn lemma_find_stable(g: Graph, u: int, k: nat) -> (ks: nat)
    requires
        wf(g),
        0 <= u < g.n as int,
        count_reach(g, u, k, g.n as int) >= k + 1,
        k + 1 <= g.n as int,
    ensures
        stable(g, u, ks),
        k <= ks,
        ks + 1 <= g.n as int,
    decreases g.n as int - k,
{
    if stable(g, u, k) {
        k
    } else {
        assert(exists|x: int|
            0 <= x < g.n as int && #[trigger] reach(g, u, x, k + 1) && !reach(g, u, x, k));
        let w = choose|x: int|
            0 <= x < g.n as int && #[trigger] reach(g, u, x, k + 1) && !reach(g, u, x, k);
        lemma_count_reach_grow(g, u, k, w, g.n as int);
        lemma_count_reach_bounds(g, u, k + 1, g.n as int);
        lemma_find_stable(g, u, k + 1)
    }
}

/// An active non-source node reaches the source through residual edges,
/// so under the labeling invariant its height stays below twice the
/// node count. This is the classical bound that keeps every height
/// inside an `i32` and the relabel budget finite.
pub proof fn lemma_active_height_bound(g: Graph, u: int)
    requires
        wf(g),
        conserves(g),
        height_ok(g),
        g.node@[0].h as int == g.n as int,
        1 <= u < g.n as int,
        g.node@[u].e > 0,
    ensures
        g.node@[u].h as int <= 2 * (g.n as int) - 1,
{
    let n = g.n as int;
    assert(reach(g, u, u, 0));
    lemma_count_reach_witness(g, u, 0, u, n);
    let ks = lemma_find_stable(g, u, 0);
    if !reach(g, u, 0, ks) {
        let s = Set::<int>::new(|x: int| !(0 <= x < n && reach(g, u, x, ks)));
        assert(s.contains(0));
        lemma_reach_mono(g, u, u, 0, ks);
        assert(!s.contains(u));
        assert forall|j: int| 0 <= j < g.edge@.len() implies cross_flow(s, #[trigger] g.edge@[
            j
        ]) <= 0 by {
            let e = g.edge@[j];
            assert(edge_ok(e, n));
            let xu = e.u as int;
            let xv = e.v as int;
            if !s.contains(xu) && s.contains(xv) {
                if residual(e, xu) > 0 {
                    assert(residual_step(e, xu, xv));
                    assert(residual_edge(g, xu, xv));
                    assert(reach(g, u, xu, ks));
                    assert(exists|y: int|
                        reach(g, u, y, ks) && #[trigger] residual_edge(g, y, xv));
                    assert(reach(g, u, xv, ks + 1));
                    assert(reach(g, u, xv, ks));
                    assert(false);
                }
            } else if s.contains(xu) && !s.contains(xv) {
                if residual(e, xv) > 0 {
                    assert(residual_step(e, xv, xu));
                    assert(residual_edge(g, xv, xu));
                    assert(reach(g, u, xv, ks));
                    assert(exists|y: int|
                        reach(g, u, y, ks) && #[trigger] residual_edge(g, y, xu));
                    assert(reach(g, u, xu, ks + 1));
                    assert(reach(g, u, xu, ks));
                    assert(false);
                }
            }
        }
        lemma_cut_flow_nonpos(s, g.edge@);
        assert forall|j: int| 0 <= j < g.edge@.len() implies ((#[trigger] g.edge@[j]).u as int)
            < n && (g.edge@[j].v as int) < n by {
            assert(edge_ok(g.edge@[j], n));
        }
        lemma_cut_exchange(s, g.edge@, n);
        lemma_outside_net_pos(g, s, u, n);
        assert(false);
    }
    lemma_reach_height(g, u, 0, ks);
}

} // verus!
