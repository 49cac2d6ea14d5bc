use preflow::Edge;
use preflow::Graph;
use preflow::Node;

fn build(n: usize, spec: &[(usize, usize, i32)]) -> Graph {
    let mut edges: Vec<Edge> = Vec::new();
    for &(u, v, c) in spec {
        edges.push(Edge::new(u, v, c));
    }
    Graph::new(n, edges).expect("well-formed input must construct")
}

fn max_flow(n: usize, spec: &[(usize, usize, i32)]) -> i32 {
    let mut g = build(n, spec);
    preflow::run(&mut g)
}

const GRAPH_A: [(usize, usize, i32); 5] = [(0, 1, 10), (1, 2, 5), (2, 3, 10), (0, 2, 10), (1, 3, 5)];

#[test]
fn scenario_a_flow_is_15() {
    assert_eq!(max_flow(4, &GRAPH_A), 15);
}

#[test]
fn scenario_b_single_edge() {
    assert_eq!(max_flow(2, &[(0, 1, 7)]), 7);
}

#[test]
fn scenario_c_disconnected_sink() {
    // No edge touches the sink: the queue must still drain and report 0.
    assert_eq!(max_flow(3, &[(0, 1, 4)]), 0);
}

#[test]
fn scenario_c_no_edges_at_all() {
    assert_eq!(max_flow(2, &[]), 0);
}

#[test]
fn scenario_d_runs_agree() {
    // The flow value is a function of the input alone, never of
    // scheduling: repeated runs agree exactly.
    let first = max_flow(4, &GRAPH_A);
    let second = max_flow(4, &GRAPH_A);
    let third = max_flow(4, &GRAPH_A);
    assert_eq!(first, 15);
    assert_eq!(second, first);
    assert_eq!(third, first);
}

#[test]
fn conservation_after_run() {
    let mut g = build(4, &GRAPH_A);
    preflow::run(&mut g);
    for i in 1..3 {
        assert_eq!(g.node[i].e, 0);
    }
}

#[test]
fn capacity_respected_after_run() {
    let mut g = build(4, &GRAPH_A);
    preflow::run(&mut g);
    for e in &g.edge {
        assert!(e.f.abs() <= e.c);
    }
}

#[test]
fn sink_excess_matches_edge_flows() {
    let mut g = build(4, &GRAPH_A);
    preflow::run(&mut g);
    let sink = g.n - 1;
    let mut inflow: i64 = 0;
    for e in &g.edge {
        if e.v == sink {
            inflow += e.f as i64;
        }
        if e.u == sink {
            inflow -= e.f as i64;
        }
    }
    assert_eq!(inflow, g.node[sink].e as i64);
}

#[test]
fn heights_never_decrease_between_observations() {
    let mut g = build(4, &GRAPH_A);
    preflow::init_pushes(&mut g);
    let mut heights: Vec<i32> = g.node.iter().map(|nd| nd.h).collect();
    while let Some(u) = g.excess.pop_front() {
        preflow::discharge(&mut g, u);
        for i in 0..g.n {
            assert!(g.node[i].h >= heights[i]);
        }
        heights = g.node.iter().map(|nd| nd.h).collect();
    }
}

#[test]
fn source_and_sink_heights_are_pinned() {
    let mut g = build(4, &GRAPH_A);
    preflow::run(&mut g);
    assert_eq!(g.node[0].h, 4);
    assert_eq!(g.node[3].h, 0);
}

#[test]
fn init_saturates_source_edges() {
    let mut g = build(4, &GRAPH_A);
    preflow::init_pushes(&mut g);
    // Edges (0,1,10) and (0,2,10) leave the source fully loaded.
    assert_eq!(g.edge[0].f, 10);
    assert_eq!(g.edge[3].f, 10);
    // The receiving ends hold the pushed excess and sit in the queue.
    assert_eq!(g.node[1].e, 10);
    assert_eq!(g.node[2].e, 10);
    assert!(g.excess.contains(&1));
    assert!(g.excess.contains(&2));
}

#[test]
fn discharge_is_a_no_op_on_exhausted_nodes() {
    let mut g = build(4, &GRAPH_A);
    // Node 1 holds no excess yet: discharge must change nothing.
    let nodes_before: Vec<Node> = g.node.clone();
    let edges_before: Vec<Edge> = g.edge.clone();
    let queue_before = g.excess.len();
    preflow::discharge(&mut g, 1);
    assert_eq!(g.node, nodes_before);
    assert_eq!(g.edge, edges_before);
    assert_eq!(g.excess.len(), queue_before);
}

#[test]
fn discharge_ignores_source_and_sink() {
    let mut g = build(4, &GRAPH_A);
    preflow::init_pushes(&mut g);
    let nodes_before: Vec<Node> = g.node.clone();
    preflow::discharge(&mut g, 0);
    preflow::discharge(&mut g, 3);
    assert_eq!(g.node, nodes_before);
}

#[test]
fn push_moves_the_admissible_amount() {
    let mut g = build(3, &[(0, 1, 6), (1, 2, 4)]);
    preflow::init_pushes(&mut g);
    assert_eq!(g.node[1].e, 6);
    // Node 1 (height 0) cannot push to node 2 (height 0) yet.
    preflow::relabel(&mut g, 1);
    assert_eq!(g.node[1].h, 1);
    preflow::push(&mut g, 1, 2, 1);
    // The push is capped by the edge capacity, not the whole excess.
    assert_eq!(g.edge[1].f, 4);
    assert_eq!(g.node[1].e, 2);
    assert_eq!(g.node[2].e, 4);
}

#[test]
fn relabel_requeues_the_node() {
    let mut g = build(2, &[(0, 1, 3)]);
    let before = g.excess.len();
    preflow::relabel(&mut g, 1);
    assert_eq!(g.excess.len(), before + 1);
    assert_eq!(g.excess.back(), Some(&1));
}

#[test]
fn node_and_edge_constructors() {
    let nd = Node::new(5);
    assert_eq!(nd.i, 5);
    assert_eq!(nd.e, 0);
    assert_eq!(nd.h, 0);
    let ed = Edge::new(2, 7, 9);
    assert_eq!(ed.u, 2);
    assert_eq!(ed.v, 7);
    assert_eq!(ed.f, 0);
    assert_eq!(ed.c, 9);
}

#[test]
fn construction_rejects_bad_endpoint() {
    assert!(Graph::new(3, vec![Edge::new(0, 3, 1)]).is_none());
    assert!(Graph::new(3, vec![Edge::new(4, 1, 1)]).is_none());
}

#[test]
fn construction_rejects_self_loop() {
    assert!(Graph::new(3, vec![Edge::new(1, 1, 1)]).is_none());
}

#[test]
fn construction_rejects_negative_capacity() {
    assert!(Graph::new(3, vec![Edge::new(0, 1, -1)]).is_none());
}

#[test]
fn construction_rejects_tiny_node_count() {
    assert!(Graph::new(0, vec![]).is_none());
    assert!(Graph::new(1, vec![]).is_none());
}

#[test]
fn construction_rejects_preloaded_flow() {
    let mut e = Edge::new(0, 1, 5);
    e.f = 1;
    assert!(Graph::new(2, vec![e]).is_none());
}

#[test]
fn construction_rejects_huge_node_count() {
    // Twice the node count must fit an i32, since heights can reach it.
    assert!(Graph::new(0x4000_0000, vec![]).is_none());
}

#[test]
fn construction_rejects_huge_total_capacity() {
    let edges = vec![Edge::new(0, 1, 0x3fff_ffff), Edge::new(1, 2, 1)];
    assert!(Graph::new(3, edges).is_none());
}

#[test]
fn construction_accepts_zero_capacity_edge() {
    let flow = max_flow(3, &[(0, 1, 0), (1, 2, 5)]);
    assert_eq!(flow, 0);
}

#[test]
fn flow_on_a_longer_chain() {
    // Bottleneck in the middle of a path.
    assert_eq!(max_flow(5, &[(0, 1, 9), (1, 2, 3), (2, 3, 9), (3, 4, 9)]), 3);
}

#[test]
fn parallel_edges_add_up() {
    assert_eq!(max_flow(2, &[(0, 1, 2), (0, 1, 3)]), 5);
}

fn cut_capacity(g: &Graph, side: &[usize]) -> i64 {
    let mut cap: i64 = 0;
    for e in &g.edge {
        let u_in = side.contains(&e.u);
        let v_in = side.contains(&e.v);
        if u_in != v_in {
            cap += e.c as i64;
        }
    }
    cap
}

#[test]
fn flow_matches_a_minimum_cut() {
    // Scenario A: {0, 1, 2} against {3} is a minimum cut of value 15.
    let mut g = build(4, &GRAPH_A);
    let flow = preflow::run(&mut g);
    assert_eq!(flow as i64, cut_capacity(&g, &[0, 1, 2]));
}

#[test]
fn flow_matches_the_bottleneck_cut() {
    // On the chain, the middle edge of capacity 3 is the minimum cut.
    let mut g = build(5, &[(0, 1, 9), (1, 2, 3), (2, 3, 9), (3, 4, 9)]);
    let flow = preflow::run(&mut g);
    assert_eq!(flow, 3);
    assert_eq!(flow as i64, cut_capacity(&g, &[0, 1]));
}

#[test]
fn reversed_edge_direction_still_carries_flow() {
    // The edge is written sink-to-source; flow runs in the negative sign.
    let mut g = build(2, &[(1, 0, 7)]);
    let flow = preflow::run(&mut g);
    assert_eq!(flow, 7);
    assert_eq!(g.edge[0].f, -7);
}
