//! Sums over the node and edge tables, and how a point update moves them.
//!
//! The overflow argument of the engine rests on two quantities: the total
//! excess held by all nodes and the total capacity of all edges. Pushes
//! move excess between two nodes and leave the total unchanged, so every
//! single excess stays below the total capacity once that bound holds for
//! the sum.

use vstd::prelude::*;

use crate::graph::flow_into;
use crate::graph::residual;
use crate::graph::Edge;
use crate::graph::Node;

verus! {

/// Total excess held by a node table.
pub open spec fn sum_excess(ns: Seq<Node>) -> int
    decreases ns.len(),
{
    if ns.len() == 0 {
        0
    } else {
        sum_excess(ns.drop_last()) + ns.last().e
    }
}

/// Total capacity of an edge table.
pub open spec fn sum_cap(es: Seq<Edge>) -> int
    decreases es.len(),
{
    if es.len() == 0 {
        0
    } else {
        sum_cap(es.drop_last()) + es.last().c
    }
}

/// Absolute value on `int`.
pub open spec fn iabs(x: int) -> int {
    if x < 0 {
        -x
    } else {
        x
    }
}

/// Total absolute flow carried by an edge table.
pub open spec fn sum_abs_flow(es: Seq<Edge>) -> int
    decreases es.len(),
{
    if es.len() == 0 {
        0
    } else {
        sum_abs_flow(es.drop_last()) + iabs(es.last().f as int)
    }
}

/// Net flow entering node `w` over an edge table.
pub open spec fn net_inflow(es: Seq<Edge>, w: int) -> int
    decreases es.len(),
{
    if es.len() == 0 {
        0
    } else {
        net_inflow(es.drop_last(), w) + flow_into(es.last(), w)
    }
}

pub proof fn lemma_sum_excess_update(ns: Seq<Node>, i: int, x: Node)
    requires
        0 <= i < ns.len(),
    ensures
        sum_excess(ns.update(i, x)) == sum_excess(ns) - ns[i].e + x.e,
    decreases ns.len(),
{
    let ns2 = ns.update(i, x);
    if i == ns.len() - 1 {
        assert(ns2.drop_last() =~= ns.drop_last());
        assert(ns2.last() == x);
    } else {
        lemma_sum_excess_update(ns.drop_last(), i, x);
        assert(ns2.drop_last() =~= ns.drop_last().update(i, x));
        assert(ns2.last() == ns.last());
        assert(ns.drop_last()[i] == ns[i]);
    }
}

pub proof fn lemma_sum_excess_nonneg(ns: Seq<Node>)
    requires
        forall|i: int| 0 <= i < ns.len() ==> (#[trigger] ns[i]).e >= 0,
    ensures
        sum_excess(ns) >= 0,
    decreases ns.len(),
{
    if ns.len() > 0 {
        lemma_sum_excess_nonneg(ns.drop_last());
        assert(ns.last() == ns[ns.len() - 1]);
    }
}

pub proof fn lemma_sum_excess_zero(ns: Seq<Node>)
    requires
        forall|i: int| 0 <= i < ns.len() ==> (#[trigger] ns[i]).e == 0,
    ensures
        sum_excess(ns) == 0,
    decreases ns.len(),
{
    if ns.len() > 0 {
        lemma_sum_excess_zero(ns.drop_last());
        assert(ns.last() == ns[ns.len() - 1]);
    }
}

pub proof fn lemma_sum_excess_elem_bound(ns: Seq<Node>, i: int)
    requires
        forall|k: int| 0 <= k < ns.len() ==> (#[trigger] ns[k]).e >= 0,
        0 <= i < ns.len(),
    ensures
        ns[i].e <= sum_excess(ns),
    decreases ns.len(),
{
    if i == ns.len() - 1 {
        lemma_sum_excess_nonneg(ns.drop_last());
        assert(ns.last() == ns[i]);
    } else {
        lemma_sum_excess_elem_bound(ns.drop_last(), i);
        assert(ns.drop_last()[i] == ns[i]);
        assert(ns.last() == ns[ns.len() - 1]);
    }
}

pub proof fn lemma_sum_excess_pair_bound(ns: Seq<Node>, i: int, k: int)
    requires
        forall|m: int| 0 <= m < ns.len() ==> (#[trigger] ns[m]).e >= 0,
        0 <= i < ns.len(),
        0 <= k < ns.len(),
        i != k,
    ensures
        ns[i].e + ns[k].e <= sum_excess(ns),
    decreases ns.len(),
{
    if k == ns.len() - 1 {
        lemma_sum_excess_elem_bound(ns.drop_last(), i);
        assert(ns.drop_last()[i] == ns[i]);
        assert(ns.last() == ns[k]);
    } else if i == ns.len() - 1 {
        lemma_sum_excess_elem_bound(ns.drop_last(), k);
        assert(ns.drop_last()[k] == ns[k]);
        assert(ns.last() == ns[i]);
    } else {
        lemma_sum_excess_pair_bound(ns.drop_last(), i, k);
        assert(ns.drop_last()[i] == ns[i]);
        assert(ns.drop_last()[k] == ns[k]);
        assert(ns.last() == ns[ns.len() - 1]);
    }
}

pub proof fn lemma_sum_cap_update(es: Seq<Edge>, j: int, x: Edge)
    requires
        0 <= j < es.len(),
    ensures
        sum_cap(es.update(j, x)) == sum_cap(es) - es[j].c + x.c,
    decreases es.len(),
{
    let es2 = es.update(j, x);
    if j == es.len() - 1 {
        assert(es2.drop_last() =~= es.drop_last());
        assert(es2.last() == x);
    } else {
        lemma_sum_cap_update(es.drop_last(), j, x);
        assert(es2.drop_last() =~= es.drop_last().update(j, x));
        assert(es2.last() == es.last());
        assert(es.drop_last()[j] == es[j]);
    }
}

pub proof fn lemma_sum_cap_nonneg(es: Seq<Edge>)
    requires
        forall|j: int| 0 <= j < es.len() ==> (#[trigger] es[j]).c >= 0,
    ensures
        sum_cap(es) >= 0,
    decreases es.len(),
{
    if es.len() > 0 {
        lemma_sum_cap_nonneg(es.drop_last());
        assert(es.last() == es[es.len() - 1]);
    }
}

pub proof fn lemma_cap_le_sum(es: Seq<Edge>, j: int)
    requires
        forall|k: int| 0 <= k < es.len() ==> (#[trigger] es[k]).c >= 0,
        0 <= j < es.len(),
    ensures
        es[j].c <= sum_cap(es),
    decreases es.len(),
{
    if j == es.len() - 1 {
        lemma_sum_cap_nonneg(es.drop_last());
        assert(es.last() == es[j]);
    } else {
        lemma_cap_le_sum(es.drop_last(), j);
        assert(es.drop_last()[j] == es[j]);
        assert(es.last() == es[es.len() - 1]);
    }
}

pub proof fn lemma_sum_cap_take_succ(es: Seq<Edge>, j: int)
    requires
        0 <= j < es.len(),
    ensures
        sum_cap(es.take(j + 1)) == sum_cap(es.take(j)) + es[j].c,
{
    assert(es.take(j + 1).drop_last() =~= es.take(j));
    assert(es.take(j + 1).last() == es[j]);
}

pub proof fn lemma_sum_cap_take_le(es: Seq<Edge>, j: int)
    requires
        forall|k: int| 0 <= k < es.len() ==> (#[trigger] es[k]).c >= 0,
        0 <= j <= es.len(),
    ensures
        sum_cap(es.take(j)) <= sum_cap(es),
    decreases es.len(),
{
    if j == es.len() {
        assert(es.take(j) =~= es);
    } else {
        assert(es.take(j) =~= es.drop_last().take(j));
        lemma_sum_cap_take_le(es.drop_last(), j);
        assert(es.last() == es[es.len() - 1]);
    }
}

pub proof fn lemma_net_inflow_update(es: Seq<Edge>, j: int, x: Edge, w: int)
    requires
        0 <= j < es.len(),
    ensures
        net_inflow(es.update(j, x), w) == net_inflow(es, w) - flow_into(es[j], w) + flow_into(x, w),
    decreases es.len(),
{
    let es2 = es.update(j, x);
    if j == es.len() - 1 {
        assert(es2.drop_last() =~= es.drop_last());
        assert(es2.last() == x);
    } else {
        lemma_net_inflow_update(es.drop_last(), j, x, w);
        assert(es2.drop_last() =~= es.drop_last().update(j, x));
        assert(es2.last() == es.last());
        assert(es.drop_last()[j] == es[j]);
    }
}

pub proof fn lemma_net_inflow_zero(es: Seq<Edge>, w: int)
    requires
        forall|j: int| 0 <= j < es.len() ==> (#[trigger] es[j]).f == 0,
    ensures
        net_inflow(es, w) == 0,
    decreases es.len(),
{
    if es.len() > 0 {
        lemma_net_inflow_zero(es.drop_last(), w);
        assert(es.last() == es[es.len() - 1]);
    }
}

pub proof fn lemma_sum_abs_flow_update(es: Seq<Edge>, j: int, x: Edge)
    requires
        0 <= j < es.len(),
    ensures
        sum_abs_flow(es.update(j, x)) == sum_abs_flow(es) - iabs(es[j].f as int) + iabs(
            x.f as int,
        ),
    decreases es.len(),
{
    let es2 = es.update(j, x);
    if j == es.len() - 1 {
        assert(es2.drop_last() =~= es.drop_last());
        assert(es2.last() == x);
    } else {
        lemma_sum_abs_flow_update(es.drop_last(), j, x);
        assert(es2.drop_last() =~= es.drop_last().update(j, x));
        assert(es2.last() == es.last());
        assert(es.drop_last()[j] == es[j]);
    }
}

pub proof fn lemma_sum_abs_flow_zero(es: Seq<Edge>)
    requires
        forall|j: int| 0 <= j < es.len() ==> (#[trigger] es[j]).f == 0,
    ensures
        sum_abs_flow(es) == 0,
    decreases es.len(),
{
    if es.len() > 0 {
        lemma_sum_abs_flow_zero(es.drop_last());
        assert(es.last() == es[es.len() - 1]);
    }
}

pub proof fn lemma_abs_flow_le_cap(es: Seq<Edge>)
    requires
        forall|k: int| 0 <= k < es.len() ==> iabs((#[trigger] es[k]).f as int) <= es[k].c,
    ensures
        sum_abs_flow(es) <= sum_cap(es),
    decreases es.len(),
{
    if es.len() > 0 {
        lemma_abs_flow_le_cap(es.drop_last());
        assert(es.last() == es[es.len() - 1]);
    }
}

/// The slack of one edge fits between the total absolute flow and the
/// total capacity: raising that edge's flow to its capacity cannot take
/// the total past the capacity sum.
pub proof fn lemma_abs_flow_slack(es: Seq<Edge>, j: int)
    requires
        forall|k: int| 0 <= k < es.len() ==> iabs((#[trigger] es[k]).f as int) <= es[k].c,
        0 <= j < es.len(),
    ensures
        sum_abs_flow(es) + es[j].c - iabs(es[j].f as int) <= sum_cap(es),
    decreases es.len(),
{
    if j == es.len() - 1 {
        lemma_abs_flow_le_cap(es.drop_last());
        assert(es.last() == es[j]);
    } else {
        lemma_abs_flow_slack(es.drop_last(), j);
        assert(es.drop_last()[j] == es[j]);
        assert(es.last() == es[es.len() - 1]);
    }
}

/// Sum of all heights in a node table.
pub open spec fn sum_h(ns: Seq<Node>) -> int
    decreases ns.len(),
{
    if ns.len() == 0 {
        0
    } else {
        sum_h(ns.drop_last()) + ns.last().h
    }
}

pub proof fn lemma_sum_h_update(ns: Seq<Node>, i: int, x: Node)
    requires
        0 <= i < ns.len(),
    ensures
        sum_h(ns.update(i, x)) == sum_h(ns) - ns[i].h + x.h,
    decreases ns.len(),
{
    let ns2 = ns.update(i, x);
    if i == ns.len() - 1 {
        assert(ns2.drop_last() =~= ns.drop_last());
        assert(ns2.last() == x);
    } else {
        lemma_sum_h_update(ns.drop_last(), i, x);
        assert(ns2.drop_last() =~= ns.drop_last().update(i, x));
        assert(ns2.last() == ns.last());
        assert(ns.drop_last()[i] == ns[i]);
    }
}

pub proof fn lemma_sum_h_le(ns: Seq<Node>, b: int)
    requires
        forall|i: int| 0 <= i < ns.len() ==> (#[trigger] ns[i]).h as int <= b,
        b >= 0,
    ensures
        sum_h(ns) <= b * ns.len(),
    decreases ns.len(),
{
    if ns.len() > 0 {
        lemma_sum_h_le(ns.drop_last(), b);
        assert(ns.last() == ns[ns.len() - 1]);
        assert(b * ns.len() == b * (ns.len() - 1) + b) by (nonlinear_arith);
    }
}

/// How many push directions edge `e` offers: residual capacity left
/// toward an endpoint standing exactly one below the other.
pub open spec fn dir_cnt(e: Edge, ns: Seq<Node>) -> int {
    (if residual(e, e.u as int) > 0 && ns[e.u as int].h as int == ns[e.v as int].h as int + 1 {
        1int
    } else {
        0int
    }) + (if residual(e, e.v as int) > 0 && ns[e.v as int].h as int == ns[e.u as int].h as int
        + 1 {
        1int
    } else {
        0int
    })
}

/// Total admissible push directions over an edge table. A saturating
/// push consumes one and creates none while heights stand still.
pub open spec fn live_dirs(es: Seq<Edge>, ns: Seq<Node>) -> int
    decreases es.len(),
{
    if es.len() == 0 {
        0
    } else {
        live_dirs(es.drop_last(), ns) + dir_cnt(es.last(), ns)
    }
}

pub proof fn lemma_live_dirs_nonneg(es: Seq<Edge>, ns: Seq<Node>)
    ensures
        live_dirs(es, ns) >= 0,
    decreases es.len(),
{
    if es.len() > 0 {
        lemma_live_dirs_nonneg(es.drop_last(), ns);
    }
}

pub proof fn lemma_live_dirs_update(es: Seq<Edge>, j: int, x: Edge, ns: Seq<Node>)
    requires
        0 <= j < es.len(),
    ensures
        live_dirs(es.update(j, x), ns) == live_dirs(es, ns) - dir_cnt(es[j], ns) + dir_cnt(
            x,
            ns,
        ),
    decreases es.len(),
{
    let es2 = es.update(j, x);
    if j == es.len() - 1 {
        assert(es2.drop_last() =~= es.drop_last());
        assert(es2.last() == x);
    } else {
        lemma_live_dirs_update(es.drop_last(), j, x, ns);
        assert(es2.drop_last() =~= es.drop_last().update(j, x));
        assert(es2.last() == es.last());
        assert(es.drop_last()[j] == es[j]);
    }
}

pub proof fn lemma_live_dirs_same_heights(es: Seq<Edge>, ns1: Seq<Node>, ns2: Seq<Node>)
    requires
        ns1.len() == ns2.len(),
        forall|v: int| 0 <= v < ns1.len() ==> (#[trigger] ns1[v]).h == ns2[v].h,
        forall|j: int|
            0 <= j < es.len() ==> ((#[trigger] es[j]).u as int) < ns1.len() && (es[j].v as int)
                < ns1.len(),
    ensures
        live_dirs(es, ns1) == live_dirs(es, ns2),
    decreases es.len(),
{
    if es.len() > 0 {
        lemma_live_dirs_same_heights(es.drop_last(), ns1, ns2);
        assert(es.last() == es[es.len() - 1]);
    }
}

/// The height a node contributes to the drain potential: counted only
/// while it is internal and holds excess.
pub open spec fn phi_term(nd: Node, n: int) -> int {
    if 1 <= nd.i < n - 1 && nd.e > 0 {
        nd.h as int
    } else {
        0
    }
}

/// The drain potential: a push that empties its sender hands the
/// excess one level down, so this sum strictly falls.
pub open spec fn active_phi(ns: Seq<Node>, n: int) -> int
    decreases ns.len(),
{
    if ns.len() == 0 {
        0
    } else {
        active_phi(ns.drop_last(), n) + phi_term(ns.last(), n)
    }
}

pub proof fn lemma_active_phi_nonneg(ns: Seq<Node>, n: int)
    requires
        forall|i: int| 0 <= i < ns.len() ==> (#[trigger] ns[i]).h >= 0,
    ensures
        active_phi(ns, n) >= 0,
    decreases ns.len(),
{
    if ns.len() > 0 {
        lemma_active_phi_nonneg(ns.drop_last(), n);
        assert(ns.last() == ns[ns.len() - 1]);
    }
}

pub proof fn lemma_active_phi_update(ns: Seq<Node>, i: int, x: Node, n: int)
    requires
        0 <= i < ns.len(),
    ensures
        active_phi(ns.update(i, x), n) == active_phi(ns, n) - phi_term(ns[i], n) + phi_term(
            x,
            n,
        ),
    decreases ns.len(),
{
    let ns2 = ns.update(i, x);
    if i == ns.len() - 1 {
        assert(ns2.drop_last() =~= ns.drop_last());
        assert(ns2.last() == x);
    } else {
        lemma_active_phi_update(ns.drop_last(), i, x, n);
        assert(ns2.drop_last() =~= ns.drop_last().update(i, x));
        assert(ns2.last() == ns.last());
        assert(ns.drop_last()[i] == ns[i]);
    }
}

} // verus!
