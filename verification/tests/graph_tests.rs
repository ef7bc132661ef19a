//! Topology, spanning-tree and oracle behavior on small concrete graphs.

use routesim::dijkstra::Dijkstra;
use routesim::graph::{Graph, Link};

fn line(n: u32) -> Graph {
    let mut g = Graph::new();
    g.add_nodes(n);
    for i in 1..n {
        g.connect(i - 1, i);
    }
    g
}

fn ring(n: u32) -> Graph {
    let mut g = line(n);
    if n > 2 {
        g.connect(0, n - 1);
    }
    g
}

#[test]
fn empty_graph() {
    let g = Graph::new();
    assert_eq!(g.node_count(), 0);
    assert_eq!(g.link_count(), 0);
    assert!(g.is_valid());
}

#[test]
fn add_link_keeps_sorted_order() {
    let mut g = Graph::new();
    g.add_nodes(5);
    g.add_link(3, 1, 10);
    g.add_link(0, 2, 10);
    g.add_link(2, 4, 10);
    g.add_link(2, 0, 10);
    assert!(g.is_valid());
    assert_eq!(g.link_count(), 4);
    assert!(g.has_link(3, 1));
    assert!(g.has_link(0, 2));
    assert!(!g.has_link(1, 3));
}

#[test]
fn add_link_updates_quality() {
    let mut g = Graph::new();
    g.add_nodes(2);
    g.add_link(0, 1, 7);
    g.add_link(0, 1, 9);
    assert_eq!(g.link_count(), 1);
    assert_eq!(g.get_link(0, 1).unwrap().quality(), 9);
    assert_eq!(g.get_link(0, 1).unwrap().cost(), 1);
}

#[test]
fn self_loop_is_ignored() {
    let mut g = Graph::new();
    g.add_nodes(3);
    g.add_link(1, 1, 5);
    assert_eq!(g.link_count(), 0);
}

#[test]
fn connect_adds_both_directions() {
    let mut g = Graph::new();
    g.add_nodes(2);
    g.connect(0, 1);
    assert!(g.has_link(0, 1));
    assert!(g.has_link(1, 0));
    assert!(g.is_bidirectional());
    assert!(g.is_directed());
}

#[test]
fn graph_invariant_survives_mutations() {
    let mut g = Graph::new();
    g.add_nodes(6);
    g.connect_nodes(&vec![0, 2, 4]);
    g.add_link(5, 0, 3);
    g.remove_node(2);
    g.del_link(0, 3);
    g.add_graph(line(3));
    assert!(g.is_valid());
}

#[test]
fn neighbors_are_the_outgoing_links() {
    let g = line(4);
    let ns = g.get_neighbors(1);
    assert_eq!(ns.len(), 2);
    assert!(ns.iter().all(|l| l.from == 1));
    let tos: Vec<u32> = ns.iter().map(|l| l.to).collect();
    assert_eq!(tos, vec![0, 2]);
    assert_eq!(g.get_neighbors(7).len(), 0);
    assert_eq!(g.get_node_degree(0), 1);
    assert_eq!(g.get_node_degree(1), 2);
}

#[test]
fn line_is_not_regular_but_ring_is() {
    assert!(!line(4).is_regular());
    assert!(ring(4).is_regular());
}

#[test]
fn remove_node_shifts_identifiers() {
    let mut g = line(4);
    g.remove_node(1);
    assert_eq!(g.node_count(), 3);
    // old links 0-1, 1-2 vanished with node 1; old 2-3 becomes 1-2
    assert_eq!(g.link_count(), 2);
    assert!(g.has_link(1, 2));
    assert!(g.has_link(2, 1));
    assert!(!g.has_link(0, 1));
    assert!(g.is_valid());
}

#[test]
fn remove_node_on_empty_graph_is_a_no_op() {
    let mut g = Graph::new();
    g.remove_node(0);
    assert_eq!(g.node_count(), 0);
}

#[test]
fn remove_unconnected_nodes_drops_isolated_ones() {
    let mut g = Graph::new();
    g.add_nodes(5);
    g.connect(1, 3);
    g.remove_unconnected_nodes();
    assert_eq!(g.node_count(), 2);
    assert_eq!(g.link_count(), 2);
    assert!(g.is_valid());
}

#[test]
fn del_links_removes_both_directions_per_pair() {
    let mut g = ring(4);
    g.del_links(&vec![0, 1, 2, 3]);
    assert!(!g.has_link(0, 1));
    assert!(!g.has_link(1, 0));
    assert!(!g.has_link(2, 3));
    assert!(!g.has_link(3, 2));
    assert!(g.has_link(1, 2));
    assert!(g.has_link(3, 0));
}

#[test]
fn disconnect_nodes_cuts_all_listed_pairs() {
    let mut g = ring(4);
    g.disconnect_nodes(&vec![0, 1, 2]);
    assert!(!g.has_link(0, 1));
    assert!(!g.has_link(1, 2));
    assert!(g.has_link(2, 3));
    assert!(g.has_link(3, 0));
}

#[test]
fn add_graph_appends_shifted() {
    let mut g = line(2);
    g.add_graph(line(2));
    assert_eq!(g.node_count(), 4);
    assert_eq!(g.link_count(), 4);
    assert!(g.has_link(2, 3));
    assert!(!g.has_link(1, 2));
    assert!(g.is_valid());
}

#[test]
fn clear_resets_everything() {
    let mut g = line(3);
    g.clear();
    assert_eq!(g.node_count(), 0);
    assert_eq!(g.link_count(), 0);
    let mut g2 = line(3);
    g2.clear_links();
    assert_eq!(g2.node_count(), 3);
    assert_eq!(g2.link_count(), 0);
}

#[test]
fn mst_of_connected_graph_has_node_count_minus_one_links() {
    // a connected graph with extra links: the ring plus one chord
    let mut g = ring(5);
    g.connect(0, 2);
    let mst = g.minimum_spanning_tree();
    assert_eq!(mst.node_count(), 5);
    assert_eq!(mst.link_count(), 4);
    assert!(mst.is_valid());
    let st = g.spanning_tree();
    assert_eq!(st.node_count(), 5);
    assert_eq!(st.link_count(), 4);
}

#[test]
fn mst_of_two_components_has_one_tree_per_component() {
    let mut g = line(3);
    g.add_graph(line(3));
    let mst = g.minimum_spanning_tree();
    assert_eq!(mst.node_count(), 6);
    // two components of 3 nodes: 2 tree links each
    assert_eq!(mst.link_count(), 4);
}

#[test]
fn oracle_line_distance_is_three() {
    let g = line(4);
    let mut d = Dijkstra::new();
    assert_eq!(d.find_shortest_distance(&g, 0, 3), Some(3));
    assert_eq!(d.find_shortest_distance(&g, 0, 0), Some(0));
    assert_eq!(d.find_shortest_distance(&g, 3, 0), Some(3));
}

#[test]
fn oracle_disconnected_pair_is_unreachable() {
    let mut g = line(2);
    g.add_nodes(1);
    let mut d = Dijkstra::new();
    assert_eq!(d.find_shortest_distance(&g, 0, 2), None);
    assert_eq!(d.find_shortest_distance(&g, 0, 1), Some(1));
}

#[test]
fn oracle_path_reconstruction_walks_back_to_the_source() {
    let g = line(4);
    let mut d = Dijkstra::new();
    assert_eq!(d.find_shortest_distance(&g, 0, 3), Some(3));
    let path = d.get_shortest_path(&g, 0, 3).unwrap();
    assert_eq!(path, vec![2, 1, 0]);
    let empty = d.get_shortest_path(&g, 0, 0).unwrap();
    assert!(empty.is_empty());
}

#[test]
fn oracle_cache_cleared() {
    let g = line(3);
    let mut d = Dijkstra::new();
    assert_eq!(d.find_shortest_distance(&g, 0, 2), Some(2));
    d.clear();
    assert!(d.get_shortest_path(&g, 0, 2).is_none());
}

#[test]
fn is_valid_rejects_unsorted_or_out_of_range_lists() {
    // the fields are public, so a caller can build a broken value; is_valid
    // must report it
    let unsorted = Graph {
        links: vec![Link::new(1, 0, 1), Link::new(0, 1, 1)],
        node_count: 2,
    };
    assert!(!unsorted.is_valid());
    let duplicate = Graph {
        links: vec![Link::new(0, 1, 1), Link::new(0, 1, 2)],
        node_count: 2,
    };
    assert!(!duplicate.is_valid());
    let out_of_range = Graph {
        links: vec![Link::new(0, 5, 1)],
        node_count: 2,
    };
    assert!(!out_of_range.is_valid());
}

#[test]
fn has_any_link_checks_both_directions() {
    let mut g = Graph::new();
    g.add_nodes(3);
    g.add_link(0, 1, 1);
    assert!(g.has_any_link(0, 1));
    assert!(g.has_any_link(1, 0));
    assert!(!g.has_any_link(0, 2));
    let l = Link::default(0, 2);
    assert_eq!(l.quality(), 1);
    assert_eq!(l.cost(), 1);
}

#[test]
fn remove_nodes_applies_each_removal_in_order() {
    // identifiers refer to the state left by the removals before them:
    // removing 4 then 2 from the 5-node line leaves the 0-1 pair and one
    // isolated node
    let mut g = line(5);
    g.remove_nodes(&vec![4, 2]);
    assert_eq!(g.node_count(), 3);
    assert_eq!(g.link_count(), 2);
    assert!(g.has_link(0, 1));
    assert!(g.has_link(1, 0));
    assert!(g.is_valid());
}
