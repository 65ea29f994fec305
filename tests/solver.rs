use cpoc_revision::edmonds_karp_solver::{EdmondsKarp, FlowError};
use cpoc_revision::flow_check::{check_flow, verify_max_flow, FlowViolation};

fn classic() -> EdmondsKarp {
    let mut ek = EdmondsKarp::new();
    ek.add_edge(0, 1, 16);
    ek.add_edge(0, 2, 13);
    ek.add_edge(1, 2, 10);
    ek.add_edge(1, 3, 12);
    ek.add_edge(2, 4, 14);
    ek.add_edge(3, 5, 20);
    ek.add_edge(4, 3, 7);
    ek.add_edge(4, 5, 4);
    ek
}

#[test]
fn test_edmonds_karp_solver() {
    let mut ek = classic();
    let max_flow = ek.max_flow(0, 5);
    assert_eq!(max_flow, Ok(23));
}

#[test]
fn test_verify_max_flow() {
    let mut ek = classic();
    let max_flow = ek.max_flow(0, 5).unwrap();
    assert_eq!(max_flow, 23);
    assert!(verify_max_flow(&ek, 0, 5, max_flow));
}

#[test]
fn empty_graph_has_zero_flow() {
    let mut ek = EdmondsKarp::new();
    assert_eq!(ek.max_flow(0, 1), Ok(0));
    assert!(ek.edges.is_empty());
}

#[test]
fn single_edge_carries_its_capacity() {
    let mut ek = EdmondsKarp::new();
    ek.add_edge(0, 1, 5);
    assert_eq!(ek.max_flow(0, 1), Ok(5));
    assert_eq!(ek.edges[0].flow, 5);
}

#[test]
fn source_equal_to_sink_gives_zero() {
    let mut ek = classic();
    let before = ek.edges.clone();
    assert_eq!(ek.max_flow(3, 3), Ok(0));
    assert_eq!(ek.edges, before);
}

#[test]
fn unknown_endpoints_give_zero() {
    let mut ek = classic();
    assert_eq!(ek.max_flow(40, 41), Ok(0));
    assert_eq!(ek.max_flow(0, 41), Ok(0));
}

#[test]
fn augmenting_path_may_undo_flow() {
    // The shortest path 0-1-2-5 must be partly undone to reach a flow of 2.
    let mut ek = EdmondsKarp::new();
    ek.add_edge(0, 1, 1);
    ek.add_edge(0, 3, 1);
    ek.add_edge(1, 2, 1);
    ek.add_edge(2, 5, 1);
    ek.add_edge(1, 4, 1);
    ek.add_edge(4, 6, 1);
    ek.add_edge(6, 5, 1);
    ek.add_edge(3, 7, 1);
    ek.add_edge(7, 2, 1);
    assert_eq!(ek.max_flow(0, 5), Ok(2));
    assert_eq!(ek.edges[2].flow, 0);
    assert!(verify_max_flow(&ek, 0, 5, 2));
}

#[test]
fn repeated_pair_is_rejected() {
    let mut ek = EdmondsKarp::new();
    assert!(ek.add_edge(0, 1, 3));
    assert!(!ek.add_edge(0, 1, 4));
    assert_eq!(ek.edges.len(), 1);
    assert_eq!(ek.edges[0].capacity, 3);
    assert_eq!(ek.adjacency.get(&0), Some(&vec![0]));
    assert_eq!(ek.residual(0, 1), 3);
    assert!(ek.add_edge(1, 0, 4));
    assert_eq!(ek.residual(0, 1), 3);
    assert_eq!(ek.residual(1, 0), 4);
    assert_eq!(ek.max_flow(0, 1), Ok(3));
}

#[test]
fn add_edge_records_both_endpoints() {
    let mut ek = EdmondsKarp::new();
    ek.add_edge(2, 7, 9);
    ek.add_edge(7, 7, 1);
    assert_eq!(ek.adjacency.get(&2), Some(&vec![0]));
    assert_eq!(ek.adjacency.get(&7), Some(&vec![0, 1]));
    assert_eq!(ek.edges[0].capacity, 9);
    assert_eq!(ek.edges[0].flow, 0);
}

#[test]
fn flow_beyond_i32_is_reported() {
    let mut ek = EdmondsKarp::new();
    ek.add_edge(0, 1, i32::MAX);
    ek.add_edge(0, 2, i32::MAX);
    ek.add_edge(1, 3, i32::MAX);
    ek.add_edge(2, 3, i32::MAX);
    assert_eq!(ek.max_flow(0, 3), Err(FlowError::Overflow));
    assert_eq!(ek.edges[0].flow, i32::MAX);
    assert_eq!(ek.edges[3].flow, i32::MAX);
}

#[test]
fn second_run_uses_only_what_is_left() {
    let mut ek = classic();
    assert_eq!(ek.max_flow(0, 5), Ok(23));
    assert_eq!(ek.max_flow(0, 5), Ok(0));
}

#[test]
fn flows_stay_within_capacity() {
    let mut ek = classic();
    ek.max_flow(0, 5).unwrap();
    for e in &ek.edges {
        assert!(e.flow >= 0);
        assert!(e.capacity - e.flow >= 0);
    }
}

#[test]
fn conservation_holds_after_solving() {
    let mut ek = classic();
    ek.max_flow(0, 5).unwrap();
    for v in 1..5usize {
        let inflow: i32 = ek.edges.iter().filter(|e| e.to == v).map(|e| e.flow).sum();
        let outflow: i32 = ek.edges.iter().filter(|e| e.from == v).map(|e| e.flow).sum();
        assert_eq!(inflow, outflow);
    }
}

#[test]
fn flow_equals_saturated_cut() {
    let mut ek = classic();
    assert_eq!(ek.max_flow(0, 5), Ok(23));
    // Vertices still reachable in the residual graph: {0, 1, 2, 4}.
    let side = [0usize, 1, 2, 4];
    let cut: i32 = ek
        .edges
        .iter()
        .filter(|e| side.contains(&e.from) && !side.contains(&e.to))
        .map(|e| e.capacity)
        .sum();
    assert_eq!(cut, 23);
}

#[test]
fn identical_inputs_give_identical_results() {
    let mut a = classic();
    let mut b = classic();
    assert_eq!(a.max_flow(0, 5), b.max_flow(0, 5));
    assert_eq!(a.edges, b.edges);
}

#[test]
fn checking_twice_gives_same_answer() {
    let mut ek = classic();
    ek.max_flow(0, 5).unwrap();
    let first = verify_max_flow(&ek, 0, 5, 23);
    let second = verify_max_flow(&ek, 0, 5, 23);
    assert_eq!(first, second);
    let first = verify_max_flow(&ek, 0, 5, 22);
    let second = verify_max_flow(&ek, 0, 5, 22);
    assert!(!first);
    assert_eq!(first, second);
}

#[test]
fn wrong_claim_is_a_source_mismatch() {
    let mut ek = classic();
    ek.max_flow(0, 5).unwrap();
    assert_eq!(
        check_flow(&ek, 0, 5, 20),
        Err(FlowViolation::SourceMismatch { net_outflow: 23 })
    );
    assert_eq!(check_flow(&ek, 0, 5, 23), Ok(()));
}

#[test]
fn leaking_flow_is_a_sink_mismatch() {
    let mut ek = EdmondsKarp::new();
    ek.add_edge(0, 1, 5);
    ek.add_edge(1, 2, 5);
    ek.edges[0].flow = 3;
    assert_eq!(
        check_flow(&ek, 0, 2, 3),
        Err(FlowViolation::SinkMismatch { net_inflow: 0 })
    );
    assert!(!verify_max_flow(&ek, 0, 2, 3));
}

#[test]
fn unbalanced_vertex_is_reported() {
    let mut ek = EdmondsKarp::new();
    ek.add_edge(0, 1, 5);
    ek.add_edge(1, 2, 5);
    ek.add_edge(0, 3, 5);
    ek.add_edge(3, 2, 5);
    ek.edges[0].flow = 2;
    ek.edges[1].flow = 1;
    ek.edges[2].flow = 1;
    ek.edges[3].flow = 2;
    assert_eq!(
        check_flow(&ek, 0, 2, 3),
        Err(FlowViolation::Unbalanced { vertex: 1, balance: 1 })
    );
}

#[test]
fn residual_reflects_pushed_flow() {
    let mut ek = EdmondsKarp::new();
    ek.add_edge(0, 1, 5);
    ek.add_edge(1, 2, 3);
    assert_eq!(ek.residual(0, 1), 5);
    assert_eq!(ek.residual(1, 0), 0);
    assert_eq!(ek.max_flow(0, 2), Ok(3));
    assert_eq!(ek.residual(0, 1), 2);
    assert_eq!(ek.residual(1, 0), 3);
    assert_eq!(ek.residual(1, 2), 0);
    assert_eq!(ek.residual(2, 1), 3);
    assert_eq!(ek.residual(8, 9), 0);
}

#[test]
fn classic_flows_follow_shortest_paths() {
    // Rounds push 12 along 0-1-3-5, 4 along 0-2-4-5, then 7 along 0-2-4-3-5.
    let mut ek = classic();
    assert_eq!(ek.max_flow(0, 5), Ok(23));
    let flows: Vec<i32> = ek.edges.iter().map(|e| e.flow).collect();
    assert_eq!(flows, vec![12, 11, 0, 12, 11, 19, 7, 4]);
}
