use chordial::graph::{BusKind, ConnectError, Graph, OutputRef, ScheduleError};

fn out(node: usize, output: usize) -> OutputRef {
    OutputRef { node, output }
}

/// sink(0) <- gain(1) <- sine(2); a control node (3) on the side
fn sample_graph() -> Graph {
    let mut g = Graph::new();
    assert_eq!(g.add_node(vec![BusKind::Audio], vec![]), 0);
    assert_eq!(g.add_node(vec![BusKind::Audio], vec![BusKind::Audio]), 1);
    assert_eq!(g.add_node(vec![], vec![BusKind::Audio]), 2);
    assert_eq!(g.add_node(vec![], vec![BusKind::Control]), 3);
    assert_eq!(g.connect(0, 0, out(1, 0)), Ok(()));
    assert_eq!(g.connect(1, 0, out(2, 0)), Ok(()));
    g
}

#[test]
fn connect_checks_in_order() {
    let mut g = sample_graph();
    assert_eq!(g.connect(9, 0, out(1, 0)), Err(ConnectError::MissingNode));
    assert_eq!(g.connect(0, 0, out(9, 0)), Err(ConnectError::MissingNode));
    assert_eq!(g.connect(0, 1, out(2, 0)), Err(ConnectError::MissingInput));
    assert_eq!(g.connect(0, 0, out(2, 1)), Err(ConnectError::MissingOutput));
    assert_eq!(g.connect(0, 0, out(3, 0)), Err(ConnectError::KindMismatch));
    assert_eq!(g.get_node_count(), 4);
}

#[test]
fn cycle_is_rejected() {
    let mut g = Graph::new();
    g.add_node(vec![BusKind::Audio], vec![BusKind::Audio]);
    g.add_node(vec![BusKind::Audio], vec![BusKind::Audio]);
    g.add_node(vec![BusKind::Audio], vec![BusKind::Audio]);
    assert_eq!(g.connect(1, 0, out(0, 0)), Ok(()));
    assert_eq!(g.connect(2, 0, out(1, 0)), Ok(()));
    assert_eq!(g.connect(0, 0, out(2, 0)), Err(ConnectError::Cycle));
    assert_eq!(g.connect(0, 0, out(0, 0)), Err(ConnectError::Cycle));
    assert!(g.slots[0].as_ref().unwrap().inputs[0].is_empty());
}

#[test]
fn fan_in_keeps_connection_order() {
    let mut g = sample_graph();
    let extra = g.add_node(vec![], vec![BusKind::Audio]);
    assert_eq!(extra, 4);
    assert_eq!(g.connect(1, 0, out(4, 0)), Ok(()));
    assert_eq!(g.slots[1].as_ref().unwrap().inputs[0], vec![out(2, 0), out(4, 0)]);
}

#[test]
fn delete_scrubs_every_reference() {
    let mut g = sample_graph();
    assert_eq!(g.connect(0, 0, out(2, 0)), Ok(()));
    g.delete_node(2);
    assert!(!g.has_node(2));
    assert_eq!(g.slots[0].as_ref().unwrap().inputs[0], vec![out(1, 0)]);
    assert!(g.slots[1].as_ref().unwrap().inputs[0].is_empty());
    assert_eq!(g.get_node_count(), 3);
    // the freed id is reused first
    assert_eq!(g.add_node(vec![], vec![BusKind::Audio]), 2);
    // deleting a missing node changes nothing
    g.delete_node(40);
    assert_eq!(g.get_node_count(), 4);
}

#[test]
fn render_order_lists_sources_first() {
    let mut g = sample_graph();
    assert_eq!(g.render_order(0), Ok(vec![2, 1, 0]));
    // a diamond: both 1 and 4 read 2, the sink reads 1 and 4
    let four = g.add_node(vec![BusKind::Audio], vec![BusKind::Audio]);
    assert_eq!(g.connect(four, 0, out(2, 0)), Ok(()));
    assert_eq!(g.connect(0, 0, out(four, 0)), Ok(()));
    let order = g.render_order(0).unwrap();
    assert_eq!(order.len(), 4);
    let pos = |n: usize| order.iter().position(|&x| x == n).unwrap();
    assert!(pos(2) < pos(1) && pos(2) < pos(4) && pos(1) < pos(0) && pos(4) < pos(0));
    // node 3 is not upstream of the sink
    assert!(!order.contains(&3));
    assert_eq!(g.render_order(7), Err(ScheduleError::MissingRoot));
}

#[test]
fn render_order_reports_cycle_built_by_hand() {
    let mut g = Graph::new();
    g.add_node(vec![BusKind::Audio], vec![]);
    g.add_node(vec![BusKind::Audio], vec![BusKind::Audio]);
    g.add_node(vec![BusKind::Audio], vec![BusKind::Audio]);
    assert_eq!(g.connect(0, 0, out(1, 0)), Ok(()));
    assert_eq!(g.connect(1, 0, out(2, 0)), Ok(()));
    // wiring read from a file may close a cycle that connect would refuse
    g.slots[2].as_mut().unwrap().inputs[0].push(out(1, 0));
    assert_eq!(g.render_order(0), Err(ScheduleError::Cycle));
}

#[test]
fn upstream_marks_only_reached_nodes() {
    let g = sample_graph();
    assert_eq!(g.upstream_marks(1), vec![false, true, true, false]);
}

#[test]
fn place_node_at_chosen_id() {
    let mut g = Graph::new();
    assert!(g.place_node(3, vec![BusKind::Midi], vec![BusKind::Audio]));
    assert_eq!(g.slots.len(), 4);
    assert!(g.has_node(3) && !g.has_node(0));
    assert!(!g.place_node(3, vec![], vec![]));
    assert_eq!(g.add_node(vec![], vec![BusKind::Midi]), 0);
    assert_eq!(g.connect(3, 0, out(0, 0)), Ok(()));
    assert_eq!(g.get_node_count(), 2);
}
