//! The routing-algorithm variants and the evaluation harness on small
//! concrete topologies.

use routesim::distance_enumeration::DistanceEnumeration;
use routesim::distance_vector_routing::DistanceVectorRouting;
use routesim::graph::Graph;
use routesim::max_num_consensus::MaxNumConsensus;
use routesim::passive_routing_test::PassiveRoutingTest;
use routesim::random_routing::RandomRouting;
use routesim::sim::{Io, RoutingAlgorithm, TestPacket};
use routesim::spanning_tree_routing::SpanningTreeRouting;

fn line(n: u32) -> Graph {
    let mut g = Graph::new();
    g.add_nodes(n);
    for i in 1..n {
        g.connect(i - 1, i);
    }
    g
}

fn ring(n: u32) -> Graph {
    let mut g = line(n);
    if n > 2 {
        g.connect(0, n - 1);
    }
    g
}

fn run_rounds<A: RoutingAlgorithm>(algo: &mut A, graph: &Graph, rounds: u32) {
    let io = Io::new(graph);
    for _ in 0..rounds {
        algo.step(&io);
    }
}

#[test]
fn io_enumerates_links_in_order() {
    let g = line(3);
    let io = Io::new(&g);
    assert_eq!(io.nodes_count(), 3);
    let mut iter = io.link_iter();
    let mut pairs = Vec::new();
    while let Some(p) = iter.next() {
        pairs.push(p);
    }
    assert_eq!(pairs, vec![(0, 1), (1, 0), (1, 2), (2, 1)]);
    assert_eq!(io.node_links(1).len(), 2);
}

#[test]
fn distance_vector_line_converges() {
    // 5-node line: after at least 5 rounds every node routes toward 4 via
    // its right-hand neighbor, and toward 0 via its left-hand one
    let g = line(5);
    let mut algo = DistanceVectorRouting::new();
    algo.reset(g.node_count());
    run_rounds(&mut algo, &g, 8);
    for i in 0..4u32 {
        let p = TestPacket::new(i, i, 0, 4);
        assert_eq!(algo.route(&p), Some(i + 1), "node {} must forward toward 4", i);
    }
    let p = TestPacket::new(0, 0, 0, 4);
    assert_eq!(algo.route(&p), Some(1));
    for i in 1..5u32 {
        let p = TestPacket::new(i, i, 4, 0);
        assert_eq!(algo.route(&p), Some(i - 1), "node {} must forward toward 0", i);
    }
}

#[test]
fn distance_vector_unknown_destination_is_no_route() {
    let g = line(3);
    let mut algo = DistanceVectorRouting::new();
    algo.reset(g.node_count());
    // no rounds ran: the tables are empty
    let p = TestPacket::new(0, 0, 0, 2);
    assert_eq!(algo.route(&p), None);
}

#[test]
fn distance_vector_entries_age_out() {
    let mut g = line(3);
    let mut algo = DistanceVectorRouting::new();
    algo.reset(g.node_count());
    run_rounds(&mut algo, &g, 3);
    assert!(algo.nodes[1].entries.len() > 0);
    // the links disappear; after more than five silent rounds every entry
    // must be gone
    g.clear_links();
    run_rounds(&mut algo, &g, 6);
    for node in algo.nodes.iter() {
        assert_eq!(node.entries.len(), 0);
    }
}

#[test]
fn spanning_tree_ring_elects_smallest_root() {
    // 4-node ring: the smallest identifier becomes every node's root, and
    // walking toward the root strictly shortens the stored path
    let g = ring(4);
    let mut algo = SpanningTreeRouting::new();
    algo.reset(g.node_count());
    run_rounds(&mut algo, &g, 10);
    for node in algo.nodes.iter() {
        assert_eq!(node.path.id, 0, "every node adopts root 0");
        assert_eq!(*node.path.path.first().unwrap(), 0);
        assert_eq!(*node.path.path.last().unwrap(), node.id);
    }
    for node in algo.nodes.iter() {
        if node.id != 0 {
            let len = node.path.path.len();
            assert!(len >= 2);
            let parent = node.path.path[len - 2];
            let plen = algo.nodes[parent as usize].path.path.len();
            assert_eq!(plen, len - 1, "the parent's path is one hop shorter");
        }
    }
}

#[test]
fn spanning_tree_routes_along_the_tree() {
    let g = line(4);
    let mut algo = SpanningTreeRouting::new();
    algo.reset(g.node_count());
    run_rounds(&mut algo, &g, 10);
    // 3 routes toward 0 through 2, and 0 toward 3 through 1
    let down = TestPacket::new(3, 3, 3, 0);
    assert_eq!(algo.route(&down), Some(2));
    let up = TestPacket::new(0, 0, 0, 3);
    assert_eq!(algo.route(&up), Some(1));
    // a direct neighbor is delivered directly
    let hop = TestPacket::new(1, 1, 1, 2);
    assert_eq!(algo.route(&hop), Some(2));
    // the destination itself gives no next hop
    let own = TestPacket::new(2, 2, 2, 2);
    assert_eq!(algo.route(&own), None);
}

#[test]
fn random_routing_uses_live_neighbors_only() {
    let g = line(3);
    let mut algo = RandomRouting::new();
    algo.reset(g.node_count());
    run_rounds(&mut algo, &g, 2);
    // node 0 has exactly one live neighbor: node 1
    let p = TestPacket::new(0, 0, 0, 2);
    for _ in 0..10 {
        assert_eq!(algo.route(&p), Some(1));
    }
    // the middle node forwards to one of its two neighbors
    let q = TestPacket::new(1, 1, 0, 2);
    for _ in 0..10 {
        let hop = algo.route(&q).unwrap();
        assert!(hop == 0 || hop == 2);
    }
}

#[test]
fn random_routing_without_neighbors_loses_the_packet() {
    let g = line(3);
    let mut algo = RandomRouting::new();
    algo.reset(g.node_count());
    // no rounds ran: no neighbors known
    let p = TestPacket::new(0, 0, 0, 2);
    assert_eq!(algo.route(&p), None);
}

#[test]
fn max_num_consensus_agrees_on_the_maximum() {
    let g = ring(4);
    let mut algo = MaxNumConsensus::new();
    algo.reset(g.node_count());
    let max = algo.nodes.iter().map(|n| n.num).max().unwrap();
    run_rounds(&mut algo, &g, 4);
    for node in algo.nodes.iter() {
        assert_eq!(node.num, max);
    }
}

#[test]
fn distance_enumeration_records_hops_to_the_maximum() {
    let g = line(3);
    let mut algo = DistanceEnumeration::new();
    algo.reset(g.node_count());
    // plant a known maximum at node 0
    algo.nodes[0].num = u32::MAX;
    algo.nodes[1].num = 1;
    algo.nodes[2].num = 2;
    algo.nodes[0].hops = 0;
    run_rounds(&mut algo, &g, 3);
    assert_eq!(algo.nodes[0].num, u32::MAX);
    assert_eq!(algo.nodes[1].num, u32::MAX);
    assert_eq!(algo.nodes[2].num, u32::MAX);
    assert_eq!(algo.nodes[1].hops, 1);
    assert_eq!(algo.nodes[2].hops, 2);
}

#[test]
fn introspection_keys_are_reported_not_errors() {
    let mut algo = DistanceVectorRouting::new();
    algo.reset(3);
    assert_eq!(algo.get("name"), "Distance Vector Algorithm");
    assert_eq!(algo.get("no such key"), "");
    assert_eq!(algo.get_node(1, "name"), "1 (0)");
    assert!(!algo.set("rtt", "2.0"));
}

#[test]
fn run_samples_on_converged_line_delivers_everything() {
    let g = line(5);
    let mut algo = DistanceVectorRouting::new();
    algo.reset(g.node_count());
    run_rounds(&mut algo, &g, 8);
    let mut test = PassiveRoutingTest::new();
    test.run_samples(&g, |p| algo.route(p), 50);
    assert!(test.is_done);
    assert_eq!(test.packets_lost, 0);
    assert_eq!(test.packets_arrived, test.packets_send);
    // the oracle's minimum can never be undercut: stretch >= 1
    assert!(test.route_costs_sum >= test.route_costs_min_sum);
    // on a converged shortest-path table the stretch is exactly 1
    assert_eq!(test.route_costs_sum, test.route_costs_min_sum);
    assert_eq!(test.nodes_disconnected, 0);
}

#[test]
fn run_all_counts_disconnected_pairs() {
    let mut g = line(3);
    g.add_nodes(1);
    let mut algo = DistanceVectorRouting::new();
    algo.reset(g.node_count());
    run_rounds(&mut algo, &g, 6);
    let mut test = PassiveRoutingTest::new();
    test.run_all(&g, |p| algo.route(p));
    // ordered pairs among the 3 connected nodes: 6; pairs touching the
    // isolated node: 6
    assert_eq!(test.nodes_connected, 6);
    assert_eq!(test.nodes_disconnected, 6);
    assert_eq!(test.packets_send, 6);
    assert_eq!(test.packets_arrived, 6);
    assert!(test.route_costs_sum >= test.route_costs_min_sum);
}

#[test]
fn run_samples_on_tiny_graphs_is_a_zero_sample_result() {
    let mut test = PassiveRoutingTest::new();
    let empty = Graph::new();
    let algo = DistanceVectorRouting::new();
    test.run_samples(&empty, |p| algo.route(p), 100);
    assert_eq!(test.packets_send, 0);
    assert_eq!(test.packets_arrived, 0);
    assert_eq!(test.packets_lost, 0);
    assert_eq!(test.route_costs_sum, 0);
    assert_eq!(test.route_costs_min_sum, 0);

    let mut one = Graph::new();
    one.add_nodes(1);
    let mut algo1 = DistanceVectorRouting::new();
    algo1.reset(1);
    test.run_samples(&one, |p| algo1.route(p), 100);
    assert_eq!(test.packets_send, 0);
    assert_eq!(test.nodes_connected, 0);
    assert_eq!(test.nodes_disconnected, 0);
}

#[test]
fn unconverged_algorithm_loses_packets_but_never_undercuts_the_minimum() {
    let g = line(4);
    let algo = DistanceVectorRouting::new();
    let mut fresh = DistanceVectorRouting::new();
    fresh.reset(g.node_count());
    drop(algo);
    let mut test = PassiveRoutingTest::new();
    // no rounds ran: every route query fails, every sampled packet is lost
    test.run_all(&g, |p| fresh.route(p));
    assert_eq!(test.packets_arrived, 0);
    assert_eq!(test.packets_lost, test.packets_send);
    assert!(test.route_costs_sum >= test.route_costs_min_sum);
}

#[test]
fn spanning_tree_separate_components_give_no_route() {
    // two disjoint lines: routing across components finds no way
    let mut g = line(3);
    let mut other = Graph::new();
    other.add_nodes(3);
    other.connect(0, 1);
    other.connect(1, 2);
    g.add_graph(other);
    let mut algo = SpanningTreeRouting::new();
    algo.reset(g.node_count());
    run_rounds(&mut algo, &g, 10);
    let p = TestPacket::new(0, 0, 0, 5);
    assert_eq!(algo.route(&p), None);
    // within one component routing still works
    let q = TestPacket::new(3, 3, 3, 5);
    assert_eq!(algo.route(&q), Some(4));
}

#[test]
fn distance_vector_route_is_accepted_only_with_fewer_hops() {
    // a triangle plus a pendant: the two-hop route to the pendant must go
    // through its only attachment
    let mut g = Graph::new();
    g.add_nodes(4);
    g.connect(0, 1);
    g.connect(1, 2);
    g.connect(0, 2);
    g.connect(2, 3);
    let mut algo = DistanceVectorRouting::new();
    algo.reset(g.node_count());
    run_rounds(&mut algo, &g, 8);
    let p = TestPacket::new(0, 0, 0, 3);
    assert_eq!(algo.route(&p), Some(2));
}

#[test]
fn reset_reallocates_the_whole_state() {
    let g = line(3);
    let mut dv = DistanceVectorRouting::new();
    dv.reset(g.node_count());
    run_rounds(&mut dv, &g, 3);
    dv.reset(g.node_count());
    assert_eq!(dv.time, 0);
    assert!(dv.nodes.iter().all(|n| n.entries.is_empty()));

    let mut tree = SpanningTreeRouting::new();
    tree.reset(g.node_count());
    run_rounds(&mut tree, &g, 3);
    tree.reset(g.node_count());
    for (i, node) in tree.nodes.iter().enumerate() {
        assert_eq!(node.id, i as u32);
        assert_eq!(node.path.id, i as u32);
        assert_eq!(node.path.path, vec![i as u32]);
        assert!(node.neighbors.is_empty());
        assert!(node.time < 0x10000);
    }
}
