//! The push and relabel primitives, the discharge operation, and the
//! driver loop that drains the active-node queue.
//!
//! Each discharge performs at most one state change (one push or one
//! relabel) and re-enqueues, before it returns, every node it leaves
//! active. The queue is therefore a faithful witness of outstanding
//! work, and an empty queue ends the run.

use vstd::prelude::*;

use crate::cuts::cut_cap;
use crate::cuts::is_st_cut;
use crate::cuts::lemma_flow_equals_min_cut;
use crate::graph::active_queued;
use crate::graph::admissible;
use crate::graph::conserves;
use crate::graph::edge_ok;
use crate::graph::far_end;
use crate::graph::height_ok;
use crate::graph::incident;
use crate::graph::initial;
use crate::graph::residual;
use crate::graph::wf;
use crate::graph::Edge;
use crate::graph::Graph;
use crate::graph::Node;
use crate::reach::lemma_active_height_bound;
use crate::sums::active_phi;
use crate::sums::dir_cnt;
use crate::sums::iabs;
use crate::sums::lemma_abs_flow_slack;
use crate::sums::lemma_active_phi_nonneg;
use crate::sums::lemma_active_phi_update;
use crate::sums::lemma_cap_le_sum;
use crate::sums::lemma_net_inflow_update;
use crate::sums::lemma_net_inflow_zero;
use crate::sums::lemma_live_dirs_nonneg;
use crate::sums::lemma_live_dirs_same_heights;
use crate::sums::lemma_live_dirs_update;
use crate::sums::lemma_sum_abs_flow_update;
use crate::sums::lemma_sum_abs_flow_zero;
use crate::sums::lemma_sum_cap_update;
use crate::sums::lemma_sum_excess_pair_bound;
use crate::sums::lemma_sum_excess_update;
use crate::sums::lemma_sum_excess_zero;
use crate::sums::lemma_sum_h_le;
use crate::sums::lemma_sum_h_update;
use crate::sums::live_dirs;
use crate::sums::net_inflow;
use crate::sums::phi_term;
use crate::sums::sum_abs_flow;
use crate::sums::sum_excess;
use crate::sums::sum_h;

verus! {

/// The amount a push moves: what the node holds, capped by the residual
/// capacity of the edge in the push direction.
pub open spec fn push_delta(g: Graph, x: int, j: int) -> int {
    if g.node@[x].e as int <= residual(g.edge@[j], x) {
        g.node@[x].e as int
    } else {
        residual(g.edge@[j], x)
    }
}

/// The exact effect of one push from `u` to `v` over edge `j`: the flow
/// moves by the delta in the right sign, `u` donates, `v` receives,
/// everything else is untouched, and the queue grows by `u` if it stays
/// active and by `v` if it just became active.
pub open spec fn push_effect(pre: Graph, post: Graph, u: int, v: int, j: int) -> bool {
    let e = pre.edge@[j];
    let d = push_delta(pre, u, j);
    &&& post.n == pre.n
    &&& post.adj == pre.adj
    &&& post.edge@.len() == pre.edge@.len()
    &&& post.edge@[j].u == e.u
    &&& post.edge@[j].v == e.v
    &&& post.edge@[j].c == e.c
    &&& post.edge@[j].f as int == e.f as int + (if e.u == u {
        d
    } else {
        -d
    })
    &&& forall|j2: int|
        0 <= j2 < pre.edge@.len() && j2 != j ==> #[trigger] post.edge@[j2] == pre.edge@[j2]
    &&& post.node@.len() == pre.node@.len()
    &&& post.node@[u].i == pre.node@[u].i
    &&& post.node@[u].h == pre.node@[u].h
    &&& post.node@[u].e as int == pre.node@[u].e as int - d
    &&& post.node@[v].i == pre.node@[v].i
    &&& post.node@[v].h == pre.node@[v].h
    &&& post.node@[v].e as int == pre.node@[v].e as int + d
    &&& forall|i: int|
        0 <= i < pre.node@.len() && i != u && i != v ==> #[trigger] post.node@[i] == pre.node@[i]
    &&& post.excess@ == pre.excess@ + (if pre.node@[u].e as int - d > 0 {
        seq![u as usize]
    } else {
        Seq::<usize>::empty()
    }) + (if pre.node@[v].e == 0 && d > 0 {
        seq![v as usize]
    } else {
        Seq::<usize>::empty()
    })
}

/// Moves excess from `u` to `v` over edge `j`, which must join them.
///
/// The postconditions carry the original's runtime checks as proved
/// facts: the delta is nonnegative, `u` keeps a nonnegative excess, and
/// the flow stays within the capacity. Conservation is preserved, and
/// the labeling invariant is preserved whenever the receiving end is at
/// most one above the sender.
pub fn push(g: &mut Graph, u: usize, v: usize, j: usize)
    requires
        wf(*old(g)),
        (u as int) < old(g).n as int,
        (v as int) < old(g).n as int,
        u != v,
        (j as int) < old(g).edge@.len(),
        old(g).edge@[j as int].u == u && old(g).edge@[j as int].v == v || old(g).edge@[
            j as int
        ].u == v && old(g).edge@[j as int].v == u,
    ensures
        push_effect(*old(g), *final(g), u as int, v as int, j as int),
        wf(*final(g)),
        push_delta(*old(g), u as int, j as int) >= 0,
        final(g).node@[u as int].e >= 0,
        iabs(final(g).edge@[j as int].f as int) <= final(g).edge@[j as int].c as int,
        sum_excess(final(g).node@) == sum_excess(old(g).node@),
        conserves(*old(g)) ==> conserves(*final(g)),
        height_ok(*old(g)) && (push_delta(*old(g), u as int, j as int) > 0 ==> old(g).node@[
            v as int
        ].h as int <= old(g).node@[u as int].h as int + 1) ==> height_ok(*final(g)),
{
    let ghost pre = *g;
    let eu = g.edge[j].u;
    let ec = g.edge[j].c;
    let ef = g.edge[j].f;
    let ue = g.node[u].e;
    proof {
        assert(edge_ok(pre.edge@[j as int], pre.n as int));
        lemma_cap_le_sum(pre.edge@, j as int);
    }
    let r: i32 = if eu == u {
        ec - ef
    } else {
        ec + ef
    };
    let d: i32 = if ue <= r {
        ue
    } else {
        r
    };
    proof {
        assert(d as int == push_delta(pre, u as int, j as int));
        assert(0 <= d as int <= residual(pre.edge@[j as int], u as int));
    }
    let mut ed = g.edge[j];
    ed.f = if eu == u {
        ef + d
    } else {
        ef - d
    };
    g.edge.set(j, ed);
    let mut nu = g.node[u];
    nu.e = nu.e - d;
    g.node.set(u, nu);
    proof {
        lemma_sum_excess_pair_bound(pre.node@, u as int, v as int);
        lemma_sum_excess_update(pre.node@, u as int, nu);
    }
    let mut nv = g.node[v];
    nv.e = nv.e + d;
    g.node.set(v, nv);
    proof {
        lemma_sum_excess_update(pre.node@.update(u as int, nu), v as int, nv);
        lemma_sum_cap_update(pre.edge@, j as int, ed);
    }
    if g.node[u].e > 0 {
        g.excess.push_back(u);
    }
    let ve = g.node[v].e;
    if ve == d && d > 0 {
        g.excess.push_back(v);
    }
    proof {
        let gu = u as int;
        let gv = v as int;
        let gj = j as int;
        let dd = push_delta(pre, gu, gj);
        assert(g.excess@ =~= pre.excess@ + (if pre.node@[gu].e as int - dd > 0 {
            seq![u]
        } else {
            Seq::<usize>::empty()
        }) + (if pre.node@[gv].e == 0 && dd > 0 {
            seq![v]
        } else {
            Seq::<usize>::empty()
        }));
        assert(push_effect(pre, *g, gu, gv, gj));
        assert forall|j2: int| 0 <= j2 < g.edge@.len() implies edge_ok(
            #[trigger] g.edge@[j2],
            g.n as int,
        ) by {
            assert(edge_ok(pre.edge@[j2], pre.n as int));
        }
        assert forall|w: int, k: int|
            0 <= w < g.adj@.len() && 0 <= k < g.adj@[w]@.len() implies {
            let j2 = #[trigger] g.adj@[w]@[k];
            (j2 as int) < g.edge@.len() && incident(g.edge@[j2 as int], w)
        } by {
            assert((g.adj@[w]@[k] as int) < pre.edge@.len() && incident(
                pre.edge@[g.adj@[w]@[k] as int],
                w,
            ));
        }
        assert forall|w: int, j2: int|
            0 <= w < g.adj@.len() && 0 <= j2 < g.edge@.len() && #[trigger] incident(
                g.edge@[j2],
                w,
            ) implies g.adj@[w]@.contains(j2 as usize) by {
            assert(incident(pre.edge@[j2], w));
        }
        assert(wf(*g));
        if conserves(pre) {
            assert forall|i: int| 1 <= i < g.n as int implies (#[trigger] g.node@[i]).e as int
                == net_inflow(g.edge@, i) by {
                lemma_net_inflow_update(pre.edge@, gj, ed, i);
            }
        }
        if height_ok(pre) && (dd > 0 ==> pre.node@[gv].h as int <= pre.node@[gu].h as int + 1) {
            assert forall|j2: int| 0 <= j2 < g.edge@.len() implies {
                let e = #[trigger] g.edge@[j2];
                &&& (residual(e, e.u as int) > 0 ==> g.node@[e.u as int].h as int <= g.node@[e.v
                    as int].h as int + 1)
                &&& (residual(e, e.v as int) > 0 ==> g.node@[e.v as int].h as int <= g.node@[e.u
                    as int].h as int + 1)
            } by {
                let e0 = pre.edge@[j2];
                assert(edge_ok(e0, pre.n as int));
                assert(g.node@[e0.u as int].h == pre.node@[e0.u as int].h);
                assert(g.node@[e0.v as int].h == pre.node@[e0.v as int].h);
                if j2 != gj {
                    assert(g.edge@[j2] == pre.edge@[j2]);
                }
            }
        }
    }
}

/// Raises the height of node `u` by exactly one and re-enqueues it.
///
/// The labeling invariant survives exactly because relabel is only
/// reached when no incident edge admits a push from `u`; that hypothesis
/// is the guard of the conditional postcondition.
pub fn relabel(g: &mut Graph, u: usize)
    requires
        wf(*old(g)),
        (u as int) < old(g).n as int,
        old(g).node@[u as int].h < 0x7fff_ffff,
    ensures
        final(g).n == old(g).n,
        final(g).adj == old(g).adj,
        final(g).edge == old(g).edge,
        final(g).node@ == old(g).node@.update(
            u as int,
            (Node {
                i: u,
                e: old(g).node@[u as int].e,
                h: (old(g).node@[u as int].h + 1) as i32,
            }),
        ),
        final(g).excess@ == old(g).excess@.push(u),
        wf(*final(g)),
        sum_excess(final(g).node@) == sum_excess(old(g).node@),
        conserves(*old(g)) ==> conserves(*final(g)),
        height_ok(*old(g)) && (forall|j: int|
            0 <= j < old(g).edge@.len() && #[trigger] incident(old(g).edge@[j], u as int)
                ==> !admissible(*old(g), u as int, j)) ==> height_ok(*final(g)),
{
    let ghost pre = *g;
    let mut nu = g.node[u];
    nu.h = nu.h + 1;
    g.node.set(u, nu);
    g.excess.push_back(u);
    proof {
        lemma_sum_excess_update(pre.node@, u as int, nu);
        assert(wf(*g));
        if height_ok(pre) && (forall|j: int|
            0 <= j < pre.edge@.len() && #[trigger] incident(pre.edge@[j], u as int)
                ==> !admissible(pre, u as int, j)) {
            assert forall|j2: int| 0 <= j2 < g.edge@.len() implies {
                let e = #[trigger] g.edge@[j2];
                &&& (residual(e, e.u as int) > 0 ==> g.node@[e.u as int].h as int <= g.node@[e.v
                    as int].h as int + 1)
                &&& (residual(e, e.v as int) > 0 ==> g.node@[e.v as int].h as int <= g.node@[e.u
                    as int].h as int + 1)
            } by {
                let e = pre.edge@[j2];
                assert(edge_ok(e, pre.n as int));
                if incident(e, u as int) {
                    assert(!admissible(pre, u as int, j2));
                }
            }
        }
    }
}

/// No edge listed for `u` admits a push away from `u`.
pub open spec fn no_admissible(g: Graph, u: int) -> bool {
    forall|k: int|
        0 <= k < g.adj@[u]@.len() ==> !(#[trigger] admissible(g, u, g.adj@[u]@[k] as int))
}

/// Discharge found the first admissible edge in adjacency order and
/// performed exactly one push over it — at strict height difference one.
pub open spec fn pushed_outcome(pre: Graph, post: Graph, u: int) -> bool {
    exists|k: int|
        {
            &&& 0 <= k < pre.adj@[u]@.len()
            &&& #[trigger] admissible(pre, u, pre.adj@[u]@[k] as int)
            &&& forall|k2: int|
                0 <= k2 < k ==> !(#[trigger] admissible(pre, u, pre.adj@[u]@[k2] as int))
            &&& push_effect(
                pre,
                post,
                u,
                far_end(pre.edge@[pre.adj@[u]@[k] as int], u),
                pre.adj@[u]@[k] as int,
            )
            &&& pre.node@[u].h as int == pre.node@[far_end(
                pre.edge@[pre.adj@[u]@[k] as int],
                u,
            )].h as int + 1
        }
}

/// Discharge found no admissible edge and relabeled `u` by exactly one.
pub open spec fn relabeled_outcome(pre: Graph, post: Graph, u: int) -> bool {
    &&& no_admissible(pre, u)
    &&& pre.node@[u].h < 0x7fff_ffff
    &&& post.n == pre.n
    &&& post.adj == pre.adj
    &&& post.edge == pre.edge
    &&& post.node@ == pre.node@.update(
        u,
        (Node { i: u as usize, e: pre.node@[u].e, h: (pre.node@[u].h + 1) as i32 }),
    )
    &&& post.excess@ == pre.excess@.push(u as usize)
}

/// Under the labeling invariant, an admissible edge always spans exactly
/// one unit of height: a push can only happen from a node exactly one
/// above the receiving end.
pub proof fn lemma_admissible_is_unit_step(g: Graph, u: int, j: int)
    requires
        wf(g),
        height_ok(g),
        0 <= u < g.n as int,
        0 <= j < g.edge@.len(),
        incident(g.edge@[j], u),
        admissible(g, u, j),
    ensures
        g.node@[u].h as int == g.node@[far_end(g.edge@[j], u)].h as int + 1,
{
    let e = g.edge@[j];
    assert(edge_ok(e, g.n as int));
    if e.u == u {
        assert(residual(e, e.u as int) > 0);
    } else {
        assert(residual(e, e.v as int) > 0);
    }
}

/// Pops nothing itself: takes a node index already popped from the
/// queue. Source, sink and exhausted nodes are left exactly as they are;
/// otherwise the incident edges are scanned in adjacency order and the
/// first admissible one receives the single push, or the node is
/// relabeled once when none admits.
pub fn discharge(g: &mut Graph, u: usize)
    requires
        wf(*old(g)),
        conserves(*old(g)),
        height_ok(*old(g)),
        old(g).node@[0].h as int == old(g).n as int,
        (u as int) < old(g).n as int,
        forall|w: int|
            1 <= w < old(g).n as int - 1 && (#[trigger] old(g).node@[w]).e > 0 && w != u as int
                ==> old(g).excess@.contains(w as usize),
    ensures
        wf(*final(g)),
        conserves(*final(g)),
        height_ok(*final(g)),
        active_queued(*final(g)),
        final(g).n == old(g).n,
        final(g).adj == old(g).adj,
        final(g).edge@.len() == old(g).edge@.len(),
        forall|j: int|
            0 <= j < old(g).edge@.len() ==> (#[trigger] final(g).edge@[j]).u == old(g).edge@[j].u
                && final(g).edge@[j].v == old(g).edge@[j].v && final(g).edge@[j].c == old(
                g,
            ).edge@[j].c,
        final(g).node@.len() == old(g).node@.len(),
        forall|i: int|
            0 <= i < old(g).node@.len() ==> (#[trigger] final(g).node@[i]).h >= old(g).node@[i].h,
        forall|i: int|
            0 <= i < old(g).node@.len() && i != u as int ==> (#[trigger] final(g).node@[i]).h
                == old(g).node@[i].h,
        old(g).excess@.is_prefix_of(final(g).excess@),
        (u as int == 0 || u as int == old(g).n as int - 1 || old(g).node@[u as int].e == 0)
            ==> *final(g) == *old(g),
        (u as int != 0 && u as int != old(g).n as int - 1 && old(g).node@[u as int].e > 0) ==> (
        pushed_outcome(*old(g), *final(g), u as int) || relabeled_outcome(
            *old(g),
            *final(g),
            u as int,
        )),
{
    let ghost pre = *g;
    let n = g.n;
    if u == 0 || u == n - 1 {
        return ;
    }
    if g.node[u].e == 0 {
        return ;
    }
    let deg = g.adj[u].len();
    let mut k: usize = 0;
    while k < deg
        invariant
            *g == pre,
            pre == *old(g),
            wf(*g),
            conserves(*g),
            height_ok(*g),
            1 <= u as int,
            (u as int) < g.n as int - 1,
            g.node@[u as int].e > 0,
            deg == g.adj@[u as int]@.len(),
            k <= deg,
            forall|w: int|
                1 <= w < g.n as int - 1 && (#[trigger] g.node@[w]).e > 0 && w != u as int
                    ==> g.excess@.contains(w as usize),
            forall|k2: int|
                0 <= k2 < k ==> !(#[trigger] admissible(*g, u as int, g.adj@[u as int]@[
                    k2
                ] as int)),
        decreases deg - k,
    {
        let j = g.adj[u][k];
        proof {
            assert((j as int) < g.edge@.len() && incident(g.edge@[j as int], u as int));
            assert(edge_ok(g.edge@[j as int], g.n as int));
            lemma_cap_le_sum(g.edge@, j as int);
        }
        let e = g.edge[j];
        let far = if e.u == u {
            e.v
        } else {
            e.u
        };
        let hu = g.node[u].h;
        let hf = g.node[far].h;
        let r: i32 = if e.u == u {
            e.c - e.f
        } else {
            e.c + e.f
        };
        proof {
            assert(far as int == far_end(pre.edge@[j as int], u as int));
            assert(r as int == residual(pre.edge@[j as int], u as int));
        }
        if hu > hf && r > 0 {
            proof {
                assert(admissible(pre, u as int, j as int));
                lemma_admissible_is_unit_step(pre, u as int, j as int);
            }
            push(g, u, far, j);
            proof {
                let gu = u as int;
                let gf = far as int;
                let d = push_delta(pre, gu, j as int);
                assert(d > 0);
                assert(pushed_outcome(pre, *g, gu));
                assert(pre.excess@.is_prefix_of(g.excess@)) by {
                    assert(g.excess@.subrange(0, pre.excess@.len() as int) =~= pre.excess@);
                }
                assert forall|w: int|
                    1 <= w < g.n as int - 1 && (#[trigger] g.node@[w]).e > 0 implies g.excess@
                    .contains(w as usize) by {
                    if w == gu {
                        assert(g.excess@[pre.excess@.len() as int] == u);
                    } else if w == gf && pre.node@[gf].e == 0 {
                        assert(g.excess@[g.excess@.len() - 1] == far);
                    } else {
                        assert(pre.excess@.contains(w as usize));
                        let kq = choose|kq: int|
                            0 <= kq < pre.excess@.len() && pre.excess@[kq] == w as usize;
                        assert(g.excess@[kq] == w as usize);
                    }
                }
            }
            return ;
        }
        proof {
            assert(!admissible(*g, u as int, g.adj@[u as int]@[k as int] as int));
        }
        k += 1;
    }
    let m = g.edge.len();
    proof {
        assert(no_admissible(pre, u as int));
        assert(pre.edge@.len() == m);
    }
    proof {
        lemma_active_height_bound(pre, u as int);
    }
    relabel(g, u);
    proof {
        assert forall|j: int|
                0 <= j < pre.edge@.len() && #[trigger] incident(pre.edge@[j], u as int)
                    implies !admissible(pre, u as int, j) by {
            assert(j <= m);
            assert(pre.adj@[u as int]@.contains(j as usize));
            let k2 = choose|k2: int|
                0 <= k2 < pre.adj@[u as int]@.len() && pre.adj@[u as int]@[k2] == j as usize;
            assert(!admissible(pre, u as int, pre.adj@[u as int]@[k2] as int));
        }
        assert(height_ok(*g));
        assert(relabeled_outcome(pre, *g, u as int));
        assert(pre.excess@.is_prefix_of(g.excess@)) by {
            assert(g.excess@.subrange(0, pre.excess@.len() as int) =~= pre.excess@);
        }
        assert forall|w: int|
            1 <= w < g.n as int - 1 && (#[trigger] g.node@[w]).e > 0 implies g.excess@.contains(
            w as usize,
        ) by {
            if w == u as int {
                assert(g.excess@[g.excess@.len() - 1] == u);
            } else {
                assert(pre.excess@.contains(w as usize));
                let kq = choose|kq: int|
                    0 <= kq < pre.excess@.len() && pre.excess@[kq] == w as usize;
                assert(g.excess@[kq] == w as usize);
            }
        }
    }
}

/// Some edge among the first `k` entries of the source's adjacency list
/// is edge `j`.
pub open spec fn touched(adj0: Seq<usize>, k: int, j: int) -> bool {
    exists|k2: int| 0 <= k2 < k && (#[trigger] adj0[k2]) as int == j
}

/// A node the initial pushes may enqueue: a non-source node that holds
/// excess and shares an edge with the source.
pub open spec fn seeded(g: Graph, x: int) -> bool {
    &&& 1 <= x < g.n as int
    &&& g.node@[x].e > 0
    &&& exists|j: int|
        0 <= j < g.edge@.len() && #[trigger] incident(g.edge@[j], 0) && incident(g.edge@[j], x)
}

/// Raises the source to height `n` and saturates every edge at the
/// source, seeding the queue with every node that received excess.
pub fn init_pushes(g: &mut Graph)
    requires
        initial(*old(g)),
    ensures
        wf(*final(g)),
        conserves(*final(g)),
        height_ok(*final(g)),
        active_queued(*final(g)),
        final(g).n == old(g).n,
        final(g).adj == old(g).adj,
        final(g).node@.len() == old(g).node@.len(),
        final(g).edge@.len() == old(g).edge@.len(),
        forall|j: int|
            0 <= j < old(g).edge@.len() ==> (#[trigger] final(g).edge@[j]).u == old(g).edge@[j].u
                && final(g).edge@[j].v == old(g).edge@[j].v && final(g).edge@[j].c == old(
                g,
            ).edge@[j].c,
        final(g).node@[0].h as int == final(g).n as int,
        forall|i: int| 1 <= i < final(g).n as int ==> (#[trigger] final(g).node@[i]).h == 0,
        forall|j: int|
            0 <= j < final(g).edge@.len() && #[trigger] incident(final(g).edge@[j], 0)
                ==> residual(final(g).edge@[j], 0) == 0,
        forall|j: int|
            0 <= j < final(g).edge@.len() && !incident(final(g).edge@[j], 0) ==> (
            #[trigger] final(g).edge@[j]).f == 0,
        forall|kq: int|
            0 <= kq < final(g).excess@.len() ==> seeded(
                *final(g),
                (#[trigger] final(g).excess@[kq]) as int,
            ),
{
    let n = g.n;
    let mut ns = g.node[0];
    ns.h = n as i32;
    let ghost nodes0 = g.node@;
    g.node.set(0, ns);
    proof {
        lemma_sum_excess_update(nodes0, 0, ns);
        assert forall|i: int| 1 <= i < g.n as int implies (#[trigger] g.node@[i]).e as int
            == net_inflow(g.edge@, i) by {
            lemma_net_inflow_zero(g.edge@, i);
        }
        lemma_sum_excess_zero(g.node@);
        lemma_sum_abs_flow_zero(g.edge@);
        assert(wf(*g));
    }
    let ghost g0 = *g;
    let deg = g.adj[0].len();
    let mut k: usize = 0;
    while k < deg
        invariant
            wf(*g),
            conserves(*g),
            active_queued(*g),
            g.n == g0.n,
            n == g.n,
            g.adj == g0.adj,
            g.node@.len() == g0.node@.len(),
            g.edge@.len() == g0.edge@.len(),
            forall|j: int|
                0 <= j < g0.edge@.len() ==> (#[trigger] g.edge@[j]).u == g0.edge@[j].u
                    && g.edge@[j].v == g0.edge@[j].v && g.edge@[j].c == g0.edge@[j].c,
            deg == g.adj@[0]@.len(),
            k <= deg,
            g.node@[0].e == 0,
            g.node@[0].h as int == g.n as int,
            forall|i: int| 1 <= i < g.n as int ==> (#[trigger] g.node@[i]).h == 0,
            sum_excess(g.node@) == sum_abs_flow(g.edge@),
            forall|k2: int|
                0 <= k2 < k ==> residual(
                    g.edge@[(#[trigger] g.adj@[0]@[k2]) as int],
                    0,
                ) == 0,
            forall|j: int|
                0 <= j < g.edge@.len() && (#[trigger] g.edge@[j]).f != 0 ==> touched(
                    g.adj@[0]@,
                    k as int,
                    j,
                ),
            forall|kq: int|
                0 <= kq < g.excess@.len() ==> seeded(*g, (#[trigger] g.excess@[kq]) as int),
        decreases deg - k,
    {
        let ghost ga = *g;
        let j = g.adj[0][k];
        proof {
            assert((j as int) < g.edge@.len() && incident(g.edge@[j as int], 0));
            assert(edge_ok(g.edge@[j as int], g.n as int));
            if g.edge@[j as int].f != 0 {
                assert(touched(g.adj@[0]@, k as int, j as int));
                let k2 = choose|k2: int|
                    0 <= k2 < k && (#[trigger] g.adj@[0]@[k2]) as int == j as int;
                assert(g.adj@[0]@[k2] < g.adj@[0]@[k as int]);
            }
            assert(g.edge@[j as int].f == 0);
        }
        let e = g.edge[j];
        let far = if e.u == 0 {
            e.v
        } else {
            e.u
        };
        let mut n0 = g.node[0];
        n0.e = n0.e + e.c;
        let ghost nodes1 = g.node@;
        g.node.set(0, n0);
        proof {
            lemma_sum_excess_update(nodes1, 0, n0);
            lemma_abs_flow_slack(g.edge@, j as int);
            assert(wf(*g));
        }
        let ghost gb = *g;
        push(g, 0, far, j);
        proof {
            let gj = j as int;
            let gf = far as int;
            let d = push_delta(gb, 0, gj);
            assert(d == e.c as int);
            assert(g.node@[0].e == 0);
            assert(residual(g.edge@[gj], 0) == 0);
            assert(g.edge@ =~= gb.edge@.update(gj, g.edge@[gj]));
            lemma_sum_abs_flow_update(gb.edge@, gj, g.edge@[gj]);
            assert(iabs(g.edge@[gj].f as int) == e.c as int);
            assert(sum_excess(g.node@) == sum_abs_flow(g.edge@));
            assert(g.excess@ =~= gb.excess@ + (if gb.node@[gf].e == 0 && d > 0 {
                seq![far]
            } else {
                Seq::<usize>::empty()
            }));
            assert forall|w: int|
                1 <= w < g.n as int - 1 && (#[trigger] g.node@[w]).e > 0 implies g.excess@
                .contains(w as usize) by {
                if w == gf && gb.node@[gf].e == 0 {
                    assert(g.excess@[g.excess@.len() - 1] == far);
                } else {
                    assert(ga.node@[w].e > 0);
                    assert(ga.excess@.contains(w as usize));
                    let kq = choose|kq: int|
                        0 <= kq < ga.excess@.len() && ga.excess@[kq] == w as usize;
                    assert(g.excess@[kq] == w as usize);
                }
            }
            assert forall|k2: int| 0 <= k2 < k + 1 implies residual(
                g.edge@[(#[trigger] g.adj@[0]@[k2]) as int],
                0,
            ) == 0 by {
                if k2 < k {
                    assert(g.adj@[0]@[k2] < g.adj@[0]@[k as int]);
                    assert(g.edge@[g.adj@[0]@[k2] as int] == ga.edge@[g.adj@[0]@[k2] as int]);
                    assert(residual(ga.edge@[(g.adj@[0]@[k2]) as int], 0) == 0);
                }
            }
            assert forall|j2: int|
                0 <= j2 < g.edge@.len() && (#[trigger] g.edge@[j2]).f != 0 implies touched(
                g.adj@[0]@,
                k as int + 1,
                j2,
            ) by {
                if j2 == gj {
                    assert((g.adj@[0]@[k as int]) as int == j2);
                } else {
                    assert(g.edge@[j2] == ga.edge@[j2]);
                    assert(touched(g.adj@[0]@, k as int, j2));
                    let k2 = choose|k2: int|
                        0 <= k2 < k && (#[trigger] g.adj@[0]@[k2]) as int == j2;
                    assert(0 <= k2 < k + 1 && (g.adj@[0]@[k2]) as int == j2);
                }
            }
            assert forall|kq: int| 0 <= kq < g.excess@.len() implies seeded(
                *g,
                (#[trigger] g.excess@[kq]) as int,
            ) by {
                let x = g.excess@[kq] as int;
                if kq < ga.excess@.len() {
                    assert(g.excess@[kq] == ga.excess@[kq]);
                    assert(seeded(ga, x));
                    let j3 = choose|j3: int|
                        0 <= j3 < ga.edge@.len() && #[trigger] incident(ga.edge@[j3], 0)
                            && incident(ga.edge@[j3], x);
                    assert(g.edge@[j3].u == ga.edge@[j3].u && g.edge@[j3].v == ga.edge@[j3].v);
                    assert(incident(g.edge@[j3], 0) && incident(g.edge@[j3], x));
                    assert(g.node@[x].e >= ga.node@[x].e);
                } else {
                    assert(g.excess@[kq] == far);
                    assert(g.node@[gf].e > 0);
                    assert(incident(g.edge@[gj], 0) && incident(g.edge@[gj], gf));
                }
            }
        }
        k += 1;
    }
    let m = g.edge.len();
    proof {
        assert(m == g.edge@.len());
        assert forall|j: int|
            0 <= j < g.edge@.len() && !incident(g.edge@[j], 0) implies (#[trigger] g.edge@[
            j
        ]).f == 0 by {
            if g.edge@[j].f != 0 {
                assert(touched(g.adj@[0]@, deg as int, j));
                let k2 = choose|k2: int|
                    0 <= k2 < deg && (#[trigger] g.adj@[0]@[k2]) as int == j;
                assert(incident(g.edge@[j], 0));
            }
        }
        assert forall|j: int|
            0 <= j < g.edge@.len() && #[trigger] incident(g.edge@[j], 0) implies residual(
            g.edge@[j],
            0,
        ) == 0 by {
            assert(j <= m);
            assert(g.adj@[0]@.contains(j as usize));
            let k2 = choose|k2: int|
                0 <= k2 < g.adj@[0]@.len() && g.adj@[0]@[k2] == j as usize;
            assert(residual(g.edge@[(g.adj@[0]@[k2]) as int], 0) == 0);
        }
        assert forall|j: int| 0 <= j < g.edge@.len() implies {
            let e = #[trigger] g.edge@[j];
            &&& (residual(e, e.u as int) > 0 ==> g.node@[e.u as int].h as int <= g.node@[e.v
                as int].h as int + 1)
            &&& (residual(e, e.v as int) > 0 ==> g.node@[e.v as int].h as int <= g.node@[e.u
                as int].h as int + 1)
        } by {
            let e = g.edge@[j];
            assert(edge_ok(e, g.n as int));
            if e.u == 0 || e.v == 0 {
                assert(incident(g.edge@[j], 0));
            }
        }
    }
}

/// Runs the whole algorithm on a freshly built network: the initial
/// saturating pushes, then discharges popped from the queue until it is
/// observed empty. Returns the final excess at the sink, which equals
/// the net inflow the edge flows record there, and is the value of a
/// minimum cut.
///
/// The drain loop terminates: relabels spend a height budget that the
/// bound on active heights keeps below `2n` per node, a saturating push
/// consumes an admissible direction, a non-saturating push lowers the
/// potential of active heights, and a pop that changes nothing shortens
/// the queue.
#[verifier::rlimit(100)]
pub fn run(g: &mut Graph) -> (flow: i32)
    requires
        initial(*old(g)),
    ensures
        wf(*final(g)),
        conserves(*final(g)),
        height_ok(*final(g)),
        final(g).n == old(g).n,
        final(g).adj == old(g).adj,
        final(g).edge@.len() == old(g).edge@.len(),
        forall|j: int|
            0 <= j < old(g).edge@.len() ==> (#[trigger] final(g).edge@[j]).u == old(g).edge@[j].u
                && final(g).edge@[j].v == old(g).edge@[j].v && final(g).edge@[j].c == old(
                g,
            ).edge@[j].c,
        final(g).node@[0].h as int == final(g).n as int,
        final(g).node@[final(g).n as int - 1].h == 0,
        final(g).excess@.len() == 0,
        forall|i: int| 1 <= i < final(g).n as int - 1 ==> (#[trigger] final(g).node@[i]).e == 0,
        flow == final(g).node@[final(g).n as int - 1].e,
        flow as int == net_inflow(final(g).edge@, final(g).n as int - 1),
        forall|s: Set<int>|
            is_st_cut(*final(g), s) ==> flow as int <= #[trigger] cut_cap(s, final(g).edge@),
        exists|s: Set<int>|
            is_st_cut(*final(g), s) && flow as int == #[trigger] cut_cap(s, final(g).edge@),
{
    init_pushes(g);
    proof {
        assert forall|i: int| 0 <= i < g.node@.len() implies (#[trigger] g.node@[i]).h as int
            <= 2 * (g.n as int) by {
            if i >= 1 {
                assert(g.node@[i].h == 0);
            }
        }
    }
    loop
        invariant
            wf(*g),
            conserves(*g),
            height_ok(*g),
            active_queued(*g),
            g.n == old(g).n,
            g.adj == old(g).adj,
            g.node@.len() == old(g).node@.len(),
            g.edge@.len() == old(g).edge@.len(),
            forall|j: int|
                0 <= j < old(g).edge@.len() ==> (#[trigger] g.edge@[j]).u == old(g).edge@[j].u
                    && g.edge@[j].v == old(g).edge@[j].v && g.edge@[j].c == old(g).edge@[j].c,
            g.node@[0].h as int == g.n as int,
            g.node@[g.n as int - 1].h == 0,
            forall|i: int|
                0 <= i < g.node@.len() ==> (#[trigger] g.node@[i]).h as int <= 2 * (g.n as int),
        decreases
            2 * (g.n as int) * (g.n as int) - sum_h(g.node@),
            live_dirs(g.edge@, g.node@),
            active_phi(g.node@, g.n as int),
            g.excess@.len(),
    {
        proof {
            lemma_sum_h_le(g.node@, 2 * (g.n as int));
            lemma_live_dirs_nonneg(g.edge@, g.node@);
            lemma_active_phi_nonneg(g.node@, g.n as int);
        }
        let ghost gl = *g;
        let ghost qpre = g.excess@;
        let popped = g.excess.pop_front();
        match popped {
            None => {
                let t = g.n - 1;
                let flow = g.node[t].e;
                proof {
                    assert forall|i: int| 1 <= i < g.n as int - 1 implies (#[trigger] g.node@[
                        i
                    ]).e == 0 by {
                        if g.node@[i].e > 0 {
                            assert(g.excess@.contains(i as usize));
                        }
                    }
                    lemma_flow_equals_min_cut(*g);
                }
                return flow;
            },
            Some(x) => {
                proof {
                    assert(qpre[0] == x);
                    assert((x as int) < g.n as int);
                    assert forall|kq: int| 0 <= kq < g.excess@.len() implies (
                    #[trigger] g.excess@[kq] as int) < g.n as int by {
                        assert(g.excess@[kq] == qpre[kq + 1]);
                    }
                    assert(wf(*g));
                    assert forall|w: int|
                        1 <= w < g.n as int - 1 && (#[trigger] g.node@[w]).e > 0 && w != x as int
                            implies g.excess@.contains(w as usize) by {
                        assert(qpre.contains(w as usize));
                        let kq = choose|kq: int|
                            0 <= kq < qpre.len() && qpre[kq] == w as usize;
                        assert(kq != 0);
                        assert(g.excess@[kq - 1] == w as usize);
                    }
                }
                let ghost gpre = *g;
                discharge(g, x);
                proof {
                    let n = g.n as int;
                    let gx = x as int;
                    if gx == 0 || gx == n - 1 || gpre.node@[gx].e == 0 {
                        assert(*g == gpre);
                        assert(g.excess@.len() < gl.excess@.len());
                    } else if pushed_outcome(gpre, *g, gx) {
                        let k = choose|k: int|
                            {
                                &&& 0 <= k < gpre.adj@[gx]@.len()
                                &&& #[trigger] admissible(gpre, gx, gpre.adj@[gx]@[k] as int)
                                &&& (forall|k2: int|
                                    0 <= k2 < k ==> !(#[trigger] admissible(
                                        gpre,
                                        gx,
                                        gpre.adj@[gx]@[k2] as int,
                                    )))
                                &&& push_effect(
                                    gpre,
                                    *g,
                                    gx,
                                    far_end(gpre.edge@[gpre.adj@[gx]@[k] as int], gx),
                                    gpre.adj@[gx]@[k] as int,
                                )
                                &&& gpre.node@[gx].h as int == gpre.node@[far_end(
                                    gpre.edge@[gpre.adj@[gx]@[k] as int],
                                    gx,
                                )].h as int + 1
                            };
                        let j = gpre.adj@[gx]@[k] as int;
                        let e0 = gpre.edge@[j];
                        let gf = far_end(e0, gx);
                        let d = push_delta(gpre, gx, j);
                        assert(edge_ok(e0, n));
                        assert(gf != gx && 0 <= gf < n);
                        assert(d > 0);
                        assert(g.node@ =~= gpre.node@.update(gx, g.node@[gx]).update(
                            gf,
                            g.node@[gf],
                        ));
                        lemma_sum_h_update(gpre.node@, gx, g.node@[gx]);
                        lemma_sum_h_update(gpre.node@.update(gx, g.node@[gx]), gf, g.node@[gf]);
                        assert(sum_h(g.node@) == sum_h(gl.node@));
                        assert(g.edge@ =~= gpre.edge@.update(j, g.edge@[j]));
                        assert forall|j2: int| 0 <= j2 < g.edge@.len() implies ((
                        #[trigger] g.edge@[j2]).u as int) < g.node@.len() && (g.edge@[j2].v
                            as int) < g.node@.len() by {
                            assert(edge_ok(g.edge@[j2], n));
                        }
                        lemma_live_dirs_same_heights(g.edge@, g.node@, gpre.node@);
                        lemma_live_dirs_update(gpre.edge@, j, g.edge@[j], gpre.node@);
                        assert(dir_cnt(e0, gpre.node@) == 1);
                        if d == residual(e0, gx) {
                            assert(dir_cnt(g.edge@[j], gpre.node@) == 0);
                            assert(live_dirs(g.edge@, g.node@) < live_dirs(
                                gl.edge@,
                                gl.node@,
                            ));
                            lemma_live_dirs_nonneg(g.edge@, g.node@);
                        } else {
                            assert(dir_cnt(g.edge@[j], gpre.node@) == 1);
                            assert(live_dirs(g.edge@, g.node@) == live_dirs(
                                gl.edge@,
                                gl.node@,
                            ));
                            assert(g.node@[gx].e == 0);
                            lemma_active_phi_update(gpre.node@, gx, g.node@[gx], n);
                            lemma_active_phi_update(
                                gpre.node@.update(gx, g.node@[gx]),
                                gf,
                                g.node@[gf],
                                n,
                            );
                            assert(gpre.node@[gx].i == gx && g.node@[gx].i == gx);
                            assert(gpre.node@[gf].i == gf && g.node@[gf].i == gf);
                            assert(phi_term(gpre.node@[gx], n) == gpre.node@[gx].h as int);
                            assert(phi_term(g.node@[gx], n) == 0);
                            assert(active_phi(g.node@, n) < active_phi(gl.node@, n));
                            lemma_active_phi_nonneg(g.node@, n);
                        }
                        assert forall|i: int|
                            0 <= i < g.node@.len() implies (#[trigger] g.node@[i]).h as int <= 2
                            * n by {
                            assert(g.node@[i].h == gpre.node@[i].h);
                        }
                    } else {
                        assert(relabeled_outcome(gpre, *g, gx));
                        lemma_active_height_bound(gpre, gx);
                        lemma_sum_h_update(
                            gpre.node@,
                            gx,
                            (Node {
                                i: x,
                                e: gpre.node@[gx].e,
                                h: (gpre.node@[gx].h + 1) as i32,
                            }),
                        );
                        assert(sum_h(g.node@) == sum_h(gl.node@) + 1);
                        assert forall|i: int|
                            0 <= i < g.node@.len() implies (#[trigger] g.node@[i]).h as int <= 2
                            * n by {
                            if i != gx {
                                assert(g.node@[i].h == gpre.node@[i].h);
                            }
                        }
                        lemma_sum_h_le(g.node@, 2 * n);
                    }
                }
            },
        }
    }
}

} // verus!
