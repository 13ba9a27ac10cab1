use maxflow::network::{Edge, FlowError, FordFulkerson};
use maxflow::search::PredEntry;

fn worked_network() -> FordFulkerson {
    let mut f = FordFulkerson::new('s', 't').unwrap();
    f.add_edge('s', 'A', 10).unwrap();
    f.add_edge('s', 'C', 10).unwrap();
    f.add_edge('A', 'B', 4).unwrap();
    f.add_edge('A', 'C', 2).unwrap();
    f.add_edge('A', 'D', 8).unwrap();
    f.add_edge('B', 't', 10).unwrap();
    f.add_edge('C', 'D', 9).unwrap();
    f.add_edge('D', 'B', 6).unwrap();
    f.add_edge('D', 't', 10).unwrap();
    f
}

const NODES: [char; 6] = ['s', 'A', 'B', 'C', 'D', 't'];

#[test]
fn worked_scenario_total_is_19() {
    let mut f = worked_network();
    assert_eq!(f.find_max_flow(), 19);
}

#[test]
fn single_edge_total_is_capacity() {
    let mut f = FordFulkerson::new('s', 't').unwrap();
    f.add_edge('s', 't', 5).unwrap();
    assert_eq!(f.find_max_flow(), 5);
}

#[test]
fn no_path_total_is_zero() {
    let mut f = FordFulkerson::new('s', 't').unwrap();
    f.add_edge('s', 'a', 5).unwrap();
    f.add_edge('b', 't', 5).unwrap();
    assert_eq!(f.find_max_flow(), 0);
}

#[test]
fn empty_network_total_is_zero() {
    let mut f = FordFulkerson::new('s', 't').unwrap();
    assert_eq!(f.find_max_flow(), 0);
}

#[test]
fn second_run_adds_nothing() {
    let mut f = worked_network();
    assert_eq!(f.find_max_flow(), 19);
    assert_eq!(f.find_max_flow(), 0);
    assert!(f.find_path().is_none());
}

#[test]
fn new_rejects_equal_endpoints() {
    assert_eq!(
        FordFulkerson::new('s', 's').unwrap_err(),
        FlowError::InvalidEndpoints
    );
}

#[test]
fn add_edge_rejects_negative_capacity() {
    let mut f = FordFulkerson::new('s', 't').unwrap();
    assert_eq!(
        f.add_edge('s', 't', -1).unwrap_err(),
        FlowError::InvalidCapacity
    );
}

#[test]
fn add_edge_rejects_self_loop() {
    let mut f = FordFulkerson::new('s', 't').unwrap();
    assert_eq!(
        f.add_edge('a', 'a', 3).unwrap_err(),
        FlowError::InvalidEndpoints
    );
}

#[test]
fn add_edge_creates_reverse_arc() {
    let mut f = FordFulkerson::new('s', 't').unwrap();
    f.add_edge('s', 'a', 5).unwrap();
    let fwd = f.get_edge('s', 'a').unwrap();
    assert_eq!(fwd.capacity, 5);
    assert_eq!(fwd.flow, 0);
    let rev = f.get_edge('a', 's').unwrap();
    assert_eq!(rev.capacity, 0);
    assert_eq!(rev.flow, 0);
    assert!(f.get_edge('a', 'b').is_none());
}

#[test]
fn add_edge_overwrites_existing_arc() {
    let mut f = FordFulkerson::new('s', 't').unwrap();
    f.add_edge('s', 'a', 5).unwrap();
    f.add_edge('s', 'a', 7).unwrap();
    let fwd = f.get_edge('s', 'a').unwrap();
    assert_eq!(fwd.capacity, 7);
    assert_eq!(fwd.flow, 0);
}

#[test]
fn residual_flow_is_magnitude() {
    assert_eq!(
        Edge {
            capacity: 10,
            flow: 3
        }
        .residual_flow(),
        7
    );
    assert_eq!(
        Edge {
            capacity: 0,
            flow: -4
        }
        .residual_flow(),
        4
    );
    assert_eq!(
        Edge {
            capacity: 5,
            flow: 5
        }
        .residual_flow(),
        0
    );
}

#[test]
fn flow_pushes_and_cancels() {
    let mut f = FordFulkerson::new('s', 't').unwrap();
    f.add_edge('s', 'a', 5).unwrap();
    f.flow(&'s', &'a', 3).unwrap();
    assert_eq!(f.get_edge('s', 'a').unwrap().flow, 3);
    assert_eq!(f.get_edge('a', 's').unwrap().flow, -3);
}

#[test]
fn flow_on_missing_arc_is_an_error() {
    let mut f = FordFulkerson::new('s', 't').unwrap();
    assert_eq!(f.flow(&'s', &'t', 1).unwrap_err(), FlowError::MissingEdge);
}

#[test]
fn find_min_flow_reads_bottleneck() {
    let mut f = FordFulkerson::new('s', 't').unwrap();
    f.add_edge('s', 'a', 5).unwrap();
    f.add_edge('a', 't', 3).unwrap();
    assert_eq!(f.find_min_flow(&vec!['a', 't']), Ok(3));
}

#[test]
fn find_min_flow_empty_path_is_unbounded_sentinel() {
    let f = FordFulkerson::new('s', 't').unwrap();
    assert_eq!(f.find_min_flow(&vec![]), Ok(i32::MAX));
}

#[test]
fn find_min_flow_missing_arc_is_an_error() {
    let f = FordFulkerson::new('s', 't').unwrap();
    assert_eq!(
        f.find_min_flow(&vec!['t']).unwrap_err(),
        FlowError::MissingEdge
    );
}

#[test]
fn find_path_single_edge() {
    let mut f = FordFulkerson::new('s', 't').unwrap();
    f.add_edge('s', 't', 5).unwrap();
    assert_eq!(f.find_path(), Some(vec!['t']));
}

#[test]
fn find_path_none_when_unreachable() {
    let mut f = FordFulkerson::new('s', 't').unwrap();
    f.add_edge('s', 'a', 5).unwrap();
    assert!(f.find_path().is_none());
}

#[test]
fn find_argument_path_records_predecessors() {
    let mut f = FordFulkerson::new('s', 't').unwrap();
    f.add_edge('s', 't', 5).unwrap();
    let tb = f.find_argument_path('s', Vec::new());
    assert!(tb
        .iter()
        .any(|e: &PredEntry| e.node == 't' && e.pred == 's'));
}

#[test]
fn saturated_arc_is_not_crossed_again() {
    let mut f = FordFulkerson::new('s', 't').unwrap();
    f.add_edge('s', 't', 5).unwrap();
    assert_eq!(f.find_max_flow(), 5);
    assert_eq!(f.get_edge('s', 't').unwrap().flow, 5);
    assert!(f.find_path().is_none());
}

#[test]
fn cancellation_holds_after_compute() {
    let mut f = worked_network();
    f.find_max_flow();
    for &u in NODES.iter() {
        for &v in NODES.iter() {
            if let Some(e) = f.get_edge(u, v) {
                let back = f.get_edge(v, u).unwrap();
                assert_eq!(e.flow, -back.flow);
            }
        }
    }
}

#[test]
fn capacity_bound_holds_after_compute() {
    let mut f = worked_network();
    f.find_max_flow();
    for &u in NODES.iter() {
        for &v in NODES.iter() {
            if let Some(e) = f.get_edge(u, v) {
                let back = f.get_edge(v, u).unwrap();
                assert!(e.flow <= e.capacity);
                assert!(-back.capacity <= e.flow);
                if back.capacity == 0 {
                    assert!(e.flow >= 0);
                }
            }
        }
    }
}

#[test]
fn conservation_holds_after_compute() {
    let mut f = worked_network();
    f.find_max_flow();
    for &x in NODES.iter() {
        if x == 's' || x == 't' {
            continue;
        }
        let mut inflow: i64 = 0;
        let mut outflow: i64 = 0;
        for &u in NODES.iter() {
            if let Some(e) = f.get_edge(u, x) {
                inflow += e.flow as i64;
            }
            if let Some(e) = f.get_edge(x, u) {
                outflow += e.flow as i64;
            }
        }
        assert_eq!(inflow, outflow);
        assert_eq!(outflow, 0);
    }
}

#[test]
fn total_equals_capacity_of_separating_cut() {
    let mut f = worked_network();
    let total = f.find_max_flow();
    // The nodes the exhausted search still reaches, together with the
    // source, form a cut; its crossing capacity must equal the total.
    let tb = f.find_argument_path('s', Vec::new());
    let reached = |x: char| x == 's' || tb.iter().any(|e: &PredEntry| e.node == x);
    assert!(reached('s'));
    assert!(!reached('t'));
    let mut cut_capacity: i64 = 0;
    for &u in NODES.iter() {
        for &v in NODES.iter() {
            if reached(u) && !reached(v) {
                if let Some(e) = f.get_edge(u, v) {
                    cut_capacity += e.capacity as i64;
                }
            }
        }
    }
    assert_eq!(cut_capacity, total as i64);
}

#[test]
fn source_outflow_equals_total() {
    let mut f = worked_network();
    let total = f.find_max_flow();
    let mut outflow: i64 = 0;
    for &u in NODES.iter() {
        if let Some(e) = f.get_edge('s', u) {
            outflow += e.flow as i64;
        }
    }
    assert_eq!(outflow, total as i64);
}
