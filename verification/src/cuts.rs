//! Cuts, and the max-flow/min-cut argument for a finished run.
//!
//! A cut is any set of node indices holding the source and not the sink.
//! Once every internal node has zero excess, the sink's excess equals
//! the net flow across every cut, so it is at most every cut's capacity.
//! The labeling invariant supplies a cut that is met exactly: some
//! height level below the source is unoccupied (pigeonhole over the
//! internal nodes), and every edge across that level is saturated.

use vstd::prelude::*;

use crate::graph::conserves;
use crate::graph::edge_ok;
use crate::graph::flow_into;
use crate::graph::height_ok;
use crate::graph::residual;
use crate::graph::wf;
use crate::graph::Edge;
use crate::graph::Graph;
use crate::sums::net_inflow;

verus! {

/// A source-sink cut: the side `s` holds the source and not the sink.
pub open spec fn is_st_cut(g: Graph, s: Set<int>) -> bool {
    s.contains(0) && !s.contains(g.n as int - 1)
}

/// What edge `e` adds to the capacity of the cut `s`: its full capacity
/// when it crosses the cut (in either orientation), nothing otherwise.
pub open spec fn cross_cap(s: Set<int>, e: Edge) -> int {
    if s.contains(e.u as int) != s.contains(e.v as int) {
        e.c as int
    } else {
        0
    }
}

/// Capacity of the cut `s` over an edge table.
pub open spec fn cut_cap(s: Set<int>, es: Seq<Edge>) -> int
    decreases es.len(),
{
    if es.len() == 0 {
        0
    } else {
        cut_cap(s, es.drop_last()) + cross_cap(s, es.last())
    }
}

/// Signed flow edge `e` carries out of the side `s`.
pub open spec fn cross_flow(s: Set<int>, e: Edge) -> int {
    (if !s.contains(e.v as int) {
        e.f as int
    } else {
        0
    }) - (if !s.contains(e.u as int) {
        e.f as int
    } else {
        0
    })
}

/// Net flow leaving the side `s` over an edge table.
pub open spec fn cut_flow(s: Set<int>, es: Seq<Edge>) -> int
    decreases es.len(),
{
    if es.len() == 0 {
        0
    } else {
        cut_flow(s, es.drop_last()) + cross_flow(s, es.last())
    }
}

/// Sum of `net_inflow` over the nodes below `i` that lie outside `s`.
pub open spec fn outside_net(s: Set<int>, i: int, es: Seq<Edge>) -> int
    decreases i,
{
    if i <= 0 {
        0
    } else {
        outside_net(s, i - 1, es) + (if !s.contains(i - 1) {
            net_inflow(es, i - 1)
        } else {
            0
        })
    }
}

/// Sum of one edge's `flow_into` over the nodes below `i` outside `s`.
pub open spec fn outside_one(s: Set<int>, i: int, e: Edge) -> int
    decreases i,
{
    if i <= 0 {
        0
    } else {
        outside_one(s, i - 1, e) + (if !s.contains(i - 1) {
            flow_into(e, i - 1)
        } else {
            0
        })
    }
}

/// The flow across a cut never exceeds its capacity.
pub proof fn lemma_cut_flow_le_cap(s: Set<int>, es: Seq<Edge>, n: int)
    requires
        forall|j: int| 0 <= j < es.len() ==> edge_ok(#[trigger] es[j], n),
    ensures
        cut_flow(s, es) <= cut_cap(s, es),
    decreases es.len(),
{
    if es.len() > 0 {
        lemma_cut_flow_le_cap(s, es.drop_last(), n);
        assert(es.last() == es[es.len() - 1]);
        assert(edge_ok(es.last(), n));
    }
}

/// When no edge carries flow out of the side, the net crossing flow
/// cannot be positive.
pub proof fn lemma_cut_flow_nonpos(s: Set<int>, es: Seq<Edge>)
    requires
        forall|j: int| 0 <= j < es.len() ==> cross_flow(s, #[trigger] es[j]) <= 0,
    ensures
        cut_flow(s, es) <= 0,
    decreases es.len(),
{
    if es.len() > 0 {
        lemma_cut_flow_nonpos(s, es.drop_last());
        assert(es.last() == es[es.len() - 1]);
    }
}

/// With the source inside the cut side, every node outside it obeys
/// conservation, so the outside sum is nonnegative.
pub proof fn lemma_outside_net_nonneg(g: Graph, s: Set<int>, i: int)
    requires
        wf(g),
        conserves(g),
        s.contains(0),
        0 <= i <= g.n as int,
    ensures
        outside_net(s, i, g.edge@) >= 0,
    decreases i,
{
    if i > 0 {
        lemma_outside_net_nonneg(g, s, i - 1);
        if !s.contains(i - 1) {
            assert(i - 1 >= 1);
            assert(g.node@[i - 1].e as int == net_inflow(g.edge@, i - 1));
        }
    }
}

/// And a single outside node holding excess pushes that sum strictly
/// above zero.
pub proof fn lemma_outside_net_pos(g: Graph, s: Set<int>, u: int, i: int)
    requires
        wf(g),
        conserves(g),
        s.contains(0),
        0 <= u < i,
        i <= g.n as int,
        !s.contains(u),
    ensures
        outside_net(s, i, g.edge@) >= g.node@[u].e as int,
    decreases i,
{
    if u == i - 1 {
        lemma_outside_net_nonneg(g, s, i - 1);
        assert(g.node@[u].e as int == net_inflow(g.edge@, u));
    } else {
        lemma_outside_net_pos(g, s, u, i - 1);
        if !s.contains(i - 1) {
            assert(i - 1 >= 1);
            assert(g.node@[i - 1].e as int == net_inflow(g.edge@, i - 1));
        }
    }
}

/// When every edge meets the cut exactly, so do the sums.
pub proof fn lemma_cut_pointwise_equal(s: Set<int>, es: Seq<Edge>)
    requires
        forall|j: int| 0 <= j < es.len() ==> cross_flow(s, #[trigger] es[j]) == cross_cap(
            s,
            es[j],
        ),
    ensures
        cut_flow(s, es) == cut_cap(s, es),
    decreases es.len(),
{
    if es.len() > 0 {
        lemma_cut_pointwise_equal(s, es.drop_last());
        assert(es.last() == es[es.len() - 1]);
    }
}

pub proof fn lemma_outside_net_empty(s: Set<int>, i: int, es: Seq<Edge>)
    requires
        es.len() == 0,
    ensures
        outside_net(s, i, es) == 0,
    decreases i,
{
    if i > 0 {
        lemma_outside_net_empty(s, i - 1, es);
    }
}

pub proof fn lemma_outside_net_linear(s: Set<int>, i: int, es: Seq<Edge>)
    requires
        es.len() > 0,
    ensures
        outside_net(s, i, es) == outside_net(s, i, es.drop_last()) + outside_one(
            s,
            i,
            es.last(),
        ),
    decreases i,
{
    if i > 0 {
        lemma_outside_net_linear(s, i - 1, es);
    }
}

pub proof fn lemma_outside_one_value(s: Set<int>, i: int, e: Edge)
    ensures
        outside_one(s, i, e) == (if (e.v as int) < i && !s.contains(e.v as int) {
            e.f as int
        } else {
            0
        }) - (if (e.u as int) < i && !s.contains(e.u as int) {
            e.f as int
        } else {
            0
        }),
    decreases i,
{
    if i > 0 {
        lemma_outside_one_value(s, i - 1, e);
    }
}

/// The exchange step: summing each node's inflow outside the cut is the
/// same as summing each edge's crossing flow.
pub proof fn lemma_cut_exchange(s: Set<int>, es: Seq<Edge>, n: int)
    requires
        forall|j: int|
            0 <= j < es.len() ==> ((#[trigger] es[j]).u as int) < n && (es[j].v as int) < n,
    ensures
        cut_flow(s, es) == outside_net(s, n, es),
    decreases es.len(),
{
    if es.len() == 0 {
        lemma_outside_net_empty(s, n, es);
    } else {
        assert(es.last() == es[es.len() - 1]);
        lemma_cut_exchange(s, es.drop_last(), n);
        lemma_outside_net_linear(s, n, es);
        lemma_outside_one_value(s, n, es.last());
        assert(outside_one(s, n, es.last()) == cross_flow(s, es.last()));
    }
}

/// Once all internal nodes are exhausted, what remains outside the cut
/// is exactly the sink's excess.
pub proof fn lemma_outside_net_terminal(g: Graph, s: Set<int>, i: int)
    requires
        wf(g),
        conserves(g),
        is_st_cut(g, s),
        forall|x: int| 1 <= x < g.n as int - 1 ==> (#[trigger] g.node@[x]).e == 0,
        0 <= i <= g.n as int,
    ensures
        outside_net(s, i, g.edge@) == if i == g.n as int {
            g.node@[g.n as int - 1].e as int
        } else {
            0
        },
    decreases i,
{
    if i > 0 {
        lemma_outside_net_terminal(g, s, i - 1);
        if !s.contains(i - 1) {
            if i - 1 >= 1 {
                assert(g.node@[i - 1].e as int == net_inflow(g.edge@, i - 1));
            }
        }
    }
}

/// How many internal nodes below `i` stand at height `k`.
pub open spec fn count_at(g: Graph, i: int, k: int) -> int
    decreases i,
{
    if i <= 0 {
        0
    } else {
        count_at(g, i - 1, k) + (if 1 <= i - 1 < g.n as int - 1 && g.node@[i - 1].h as int == k {
            1int
        } else {
            0int
        })
    }
}

/// How many internal nodes below `i` stand at a height in `1..=c`.
pub open spec fn band(g: Graph, i: int, c: int) -> int
    decreases c,
{
    if c <= 0 {
        0
    } else {
        band(g, i, c - 1) + count_at(g, i, c)
    }
}

pub proof fn lemma_count_at_witness(g: Graph, i: int, k: int, x: int)
    requires
        1 <= x < g.n as int - 1,
        g.node@[x].h as int == k,
        x < i,
        0 <= i,
    ensures
        count_at(g, i, k) >= 1,
    decreases i,
{
    lemma_count_at_nonneg(g, i - 1, k);
    if x < i - 1 {
        lemma_count_at_witness(g, i - 1, k, x);
        assert(count_at(g, i, k) >= count_at(g, i - 1, k));
    }
}

pub proof fn lemma_count_at_nonneg(g: Graph, i: int, k: int)
    ensures
        count_at(g, i, k) >= 0,
    decreases i,
{
    if i > 0 {
        lemma_count_at_nonneg(g, i - 1, k);
    }
}

pub proof fn lemma_band_node_step(g: Graph, i: int, c: int)
    requires
        i >= 1,
    ensures
        band(g, i, c) == band(g, i - 1, c) + (if 1 <= i - 1 < g.n as int - 1 && 1 <= g.node@[
            i - 1
        ].h as int <= c {
            1int
        } else {
            0int
        }),
    decreases c,
{
    if c > 0 {
        lemma_band_node_step(g, i, c - 1);
    }
}

/// A band never counts more than the internal nodes below `i`.
pub proof fn lemma_band_le(g: Graph, i: int, c: int)
    requires
        0 <= i,
        g.n as int >= 2,
    ensures
        band(g, i, c) <= (if i <= 1 {
            0
        } else if i - 1 <= g.n as int - 2 {
            i - 1
        } else {
            g.n as int - 2
        }),
        band(g, i, c) >= 0,
    decreases i,
{
    if i == 0 {
        lemma_band_zero(g, c);
    } else {
        lemma_band_le(g, i - 1, c);
        lemma_band_node_step(g, i, c);
    }
}

pub proof fn lemma_band_zero(g: Graph, c: int)
    ensures
        band(g, 0, c) == 0,
    decreases c,
{
    if c > 0 {
        lemma_band_zero(g, c - 1);
    }
}

/// Some internal node stands exactly at height `k`.
pub open spec fn occupied(g: Graph, k: int) -> bool {
    exists|x: int| 1 <= x < g.n as int - 1 && (#[trigger] g.node@[x]).h as int == k
}

/// When every level in `1..=c` is occupied, the band holds at least `c`.
pub proof fn lemma_band_ge(g: Graph, c: int)
    requires
        forall|k: int| 1 <= k <= c ==> #[trigger] occupied(g, k),
        0 <= c,
    ensures
        band(g, g.n as int, c) >= c,
    decreases c,
{
    if c > 0 {
        lemma_band_ge(g, c - 1);
        assert(occupied(g, c));
        let x = choose|x: int| 1 <= x < g.n as int - 1 && (#[trigger] g.node@[x]).h as int == c;
        lemma_count_at_witness(g, g.n as int, c, x);
    }
}

/// Pigeonhole over the internal nodes: some height level strictly
/// between the sink's and the source's is unoccupied.
pub proof fn lemma_gap_exists(g: Graph) -> (k: int)
    requires
        wf(g),
    ensures
        1 <= k <= g.n as int - 1,
        forall|x: int| 1 <= x < g.n as int - 1 ==> (#[trigger] g.node@[x]).h as int != k,
{
    let n = g.n as int;
    if exists|k2: int| 1 <= k2 <= n - 1 && !(#[trigger] occupied(g, k2)) {
        let k2 = choose|k2: int| 1 <= k2 <= n - 1 && !(#[trigger] occupied(g, k2));
        assert forall|x: int| 1 <= x < n - 1 implies (#[trigger] g.node@[x]).h as int != k2 by {
            if g.node@[x].h as int == k2 {
                assert(occupied(g, k2));
            }
        }
        k2
    } else {
        assert forall|k2: int| 1 <= k2 <= n - 1 implies #[trigger] occupied(g, k2) by {
            assert(!(1 <= k2 <= n - 1 && !occupied(g, k2)));
        }
        lemma_band_ge(g, n - 1);
        lemma_band_le(g, n, n - 1);
        assert(false);
        1
    }
}

/// The side of the gap cut: every node standing strictly above level `k`.
pub open spec fn gap_side(g: Graph, k: int) -> Set<int> {
    Set::new(|x: int| g.node@[x].h as int > k)
}

/// Max-flow/min-cut for a finished run: with every internal node
/// exhausted, the sink's excess is at most the capacity of every
/// source-sink cut, and equals the capacity of one of them — the cut at
/// an unoccupied height level, where the labeling invariant forces
/// every crossing edge to be saturated.
pub proof fn lemma_flow_equals_min_cut(g: Graph)
    requires
        wf(g),
        conserves(g),
        height_ok(g),
        g.node@[0].h as int == g.n as int,
        g.node@[g.n as int - 1].h == 0,
        forall|x: int| 1 <= x < g.n as int - 1 ==> (#[trigger] g.node@[x]).e == 0,
    ensures
        forall|s: Set<int>|
            is_st_cut(g, s) ==> g.node@[g.n as int - 1].e as int <= #[trigger] cut_cap(
                s,
                g.edge@,
            ),
        exists|s: Set<int>|
            is_st_cut(g, s) && g.node@[g.n as int - 1].e as int == #[trigger] cut_cap(
                s,
                g.edge@,
            ),
{
    let n = g.n as int;
    let flow = g.node@[n - 1].e as int;
    assert forall|s: Set<int>| is_st_cut(g, s) implies flow <= #[trigger] cut_cap(
        s,
        g.edge@,
    ) by {
        lemma_cut_value(g, s);
        lemma_cut_flow_le_cap(s, g.edge@, n);
    }
    let k = lemma_gap_exists(g);
    let s = gap_side(g, k);
    assert(is_st_cut(g, s));
    lemma_cut_value(g, s);
    assert forall|j: int| 0 <= j < g.edge@.len() implies cross_flow(s, #[trigger] g.edge@[j])
        == cross_cap(s, g.edge@[j]) by {
        let e = g.edge@[j];
        assert(edge_ok(e, n));
        let xu = e.u as int;
        let xv = e.v as int;
        if s.contains(xu) && !s.contains(xv) {
            assert(g.node@[xu].h as int > k);
            assert((g.node@[xv].h as int) < k) by {
                if 1 <= xv < n - 1 {
                    assert(g.node@[xv].h as int != k);
                }
            }
            assert(residual(e, xu) == 0) by {
                if residual(e, xu) > 0 {
                    if e.u == xu {
                        assert(g.node@[xu].h as int <= g.node@[xv].h as int + 1);
                    } else {
                        assert(g.node@[xu].h as int <= g.node@[xv].h as int + 1);
                    }
                }
            }
        } else if s.contains(xv) && !s.contains(xu) {
            assert(g.node@[xv].h as int > k);
            assert((g.node@[xu].h as int) < k) by {
                if 1 <= xu < n - 1 {
                    assert(g.node@[xu].h as int != k);
                }
            }
            assert(residual(e, xv) == 0) by {
                if residual(e, xv) > 0 {
                    assert(g.node@[xv].h as int <= g.node@[xu].h as int + 1);
                }
            }
        }
    }
    lemma_cut_pointwise_equal(s, g.edge@);
}

/// Across any source-sink cut, once the internal nodes are exhausted,
/// the net crossing flow is exactly the sink's excess.
pub proof fn lemma_cut_value(g: Graph, s: Set<int>)
    requires
        wf(g),
        conserves(g),
        is_st_cut(g, s),
        forall|x: int| 1 <= x < g.n as int - 1 ==> (#[trigger] g.node@[x]).e == 0,
    ensures
        cut_flow(s, g.edge@) == g.node@[g.n as int - 1].e as int,
{
    let n = g.n as int;
    assert forall|j: int| 0 <= j < g.edge@.len() implies ((#[trigger] g.edge@[j]).u as int) < n
        && (g.edge@[j].v as int) < n by {
        assert(edge_ok(g.edge@[j], n));
    }
    lemma_cut_exchange(s, g.edge@, n);
    lemma_outside_net_terminal(g, s, n);
}

} // verus!
