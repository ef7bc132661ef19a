//! The shared helpers: vector upkeep, the ring buffer, decimal formatting,
//! the debug walk, and the metadata stores.

use routesim::debug_path::{DebugPath, DebugStep};
use routesim::distance_vector_routing::DistanceVectorRouting;
use routesim::graph::{Graph, Link};
use routesim::meta::Meta;
use routesim::movements::Movements;
use routesim::sim::RoutingAlgorithm;
use routesim::stats::TestResult;
use routesim::utils::{
    str_eq, u64_to_string, vec_add_entry, vec_del_entry, vec_filter, vec_resize_with, CircularVec,
};

fn line(n: u32) -> Graph {
    let mut g = Graph::new();
    g.add_nodes(n);
    for i in 1..n {
        g.connect(i - 1, i);
    }
    g
}

#[test]
fn link_accessors() {
    let l = Link::new(3, 4, 9);
    assert_eq!(l.from, 3);
    assert_eq!(l.to, 4);
    assert_eq!(l.quality(), 9);
    assert_eq!(l.cost(), 1);
    assert_eq!(l.bandwidth(), 1);
    assert_eq!(l.cmp(3, 4), std::cmp::Ordering::Equal);
    assert_eq!(l.cmp(3, 5), std::cmp::Ordering::Less);
    assert_eq!(l.cmp(2, 9), std::cmp::Ordering::Greater);
}

#[test]
fn vec_add_entry_replaces_or_appends() {
    let mut v: Vec<u32> = vec![1, 2, 3];
    vec_add_entry(&mut v, &2);
    assert_eq!(v, vec![1, 2, 3]);
    vec_add_entry(&mut v, &7);
    assert_eq!(v, vec![1, 2, 3, 7]);
}

#[test]
fn vec_del_entry_removes_all_matches() {
    let mut v: Vec<u32> = vec![5, 1, 5, 2, 5];
    vec_del_entry(&mut v, &5);
    assert_eq!(v.len(), 2);
    assert!(v.contains(&1));
    assert!(v.contains(&2));
    assert!(!v.contains(&5));
}

#[test]
fn vec_filter_keeps_only_accepted() {
    let mut v: Vec<u32> = vec![1, 2, 3, 4, 5, 6];
    vec_filter(&mut v, |x: &u32| x % 2 == 0);
    assert_eq!(v.len(), 3);
    assert!(v.iter().all(|x| x % 2 == 0));
}

#[test]
fn vec_resize_with_grows_and_truncates() {
    let mut v: Vec<usize> = vec![9, 9];
    vec_resize_with(&mut v, 5, |i: usize| i * 10);
    assert_eq!(v, vec![9, 9, 20, 30, 40]);
    vec_resize_with(&mut v, 1, |i: usize| i);
    assert_eq!(v, vec![9]);
}

#[test]
fn circular_vec_wraps_after_twenty() {
    let mut c: CircularVec<u32> = CircularVec::new();
    assert_eq!(c.len(), 0);
    for i in 0..25u32 {
        c.push(i);
    }
    assert_eq!(c.len(), 20);
    // the first five slots were overwritten by 20..24
    assert_eq!(*c.get(0), 20);
    assert_eq!(*c.get(4), 24);
    assert_eq!(*c.get(5), 5);
}

#[test]
fn decimal_formatting() {
    assert_eq!(u64_to_string(0), "0");
    assert_eq!(u64_to_string(7), "7");
    assert_eq!(u64_to_string(12345), "12345");
    assert_eq!(u64_to_string(18446744073709551615), "18446744073709551615");
}

#[test]
fn string_equality_helper() {
    assert!(str_eq("name", "name"));
    assert!(!str_eq("name", "nam"));
    assert!(!str_eq("name", "nAme"));
    assert!(str_eq("", ""));
}

#[test]
fn test_result_to_json() {
    let mut r = TestResult::new();
    r.test_num = 3;
    r.test_packet_costs = 14;
    r.deployed_test_packets = 2;
    let json = r.to_json();
    assert_eq!(
        json,
        "{\"test_num\": 3,\"test_packet_costs\": 14,\"comm_packet_costs\": 0,\"deployed_test_packets\": 2,\"received_test_packets\": 0}"
    );
    r.clear();
    assert_eq!(r.test_num, 0);
    assert_eq!(r.test_packet_costs, 0);
}

#[test]
fn meta_and_movements_stores() {
    let mut m = Meta::new();
    m.insert(4, "x".to_string());
    m.remove_node(4);
    m.insert(5, "y".to_string());
    m.clear();
    let mut mv = Movements::new();
    mv.remove_node(1);
    mv.clear();
}

#[test]
fn debug_path_walks_one_hop_per_step() {
    let g = line(3);
    let mut algo = DistanceVectorRouting::new();
    algo.reset(g.node_count());
    let io = routesim::sim::Io::new(&g);
    for _ in 0..6 {
        algo.step(&io);
    }
    let route = |p: &routesim::sim::TestPacket| algo.route(p);
    let mut dbg = DebugPath::new();
    assert_eq!(dbg.step(&g, &route), DebugStep::NotInitialized);
    dbg.init(0, 2);
    assert_eq!(dbg.step(&g, &route), DebugStep::Forwarded(1));
    assert_eq!(dbg.step(&g, &route), DebugStep::Arrived(2));
    assert_eq!(dbg.step(&g, &route), DebugStep::Ended);
}
