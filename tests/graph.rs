use gadget_graph::{ConnectionGraph, Handle, MAX_NODES};

#[derive(Debug, PartialEq)]
struct Dummy(u32);

type Graph = ConnectionGraph<Dummy, 32>;

fn node(graph: &mut Graph, tag: u32) -> Handle {
    graph
        .add_node(Dummy(tag))
        .map_err(|_| "something went horribly wrong")
        .unwrap()
}

fn position(order: &[usize], h: &Handle) -> usize {
    order.iter().position(|&i| i == h.index()).unwrap()
}

#[test]
fn toposort_success() {
    let mut graph: Graph = ConnectionGraph::new();
    let a = node(&mut graph, 0);
    let b = node(&mut graph, 1);
    let c = node(&mut graph, 2);
    let d = node(&mut graph, 3);
    let e = node(&mut graph, 4);
    let f = node(&mut graph, 5);
    let g = node(&mut graph, 6);

    assert!(
        graph.add_data_edge(&a, 0, &c, 0)
            && graph.add_signal_edge(&a, 0, &d, 0)
            && graph.add_data_edge(&b, 0, &e, 0)
            && graph.add_signal_edge(&c, 0, &f, 0)
            && graph.add_data_edge(&d, 0, &g, 0)
            && graph.add_data_edge(&e, 0, &g, 0)
    );
    println!("{:?}", graph.execution_order());
}

#[test]
fn toposort_fail() {
    let mut graph: Graph = ConnectionGraph::new();
    let a = node(&mut graph, 0);
    let b = node(&mut graph, 1);
    let c = node(&mut graph, 2);
    let d = node(&mut graph, 3);

    assert!(
        !(graph.add_data_edge(&a, 0, &c, 0)
            && graph.add_data_edge(&c, 0, &d, 0)
            && graph.add_signal_edge(&d, 0, &a, 0))
            && graph.add_data_edge(&b, 0, &c, 0)
    );
    println!("{:?}", graph.execution_order());
}

#[test]
fn scenario_order_respects_every_edge() {
    let mut graph: Graph = ConnectionGraph::new();
    let h: Vec<Handle> = (0..7).map(|t| node(&mut graph, t)).collect();
    let (a, b, c, d, e, f, g) = (&h[0], &h[1], &h[2], &h[3], &h[4], &h[5], &h[6]);
    assert!(graph.add_data_edge(a, 0, c, 0));
    assert!(graph.add_signal_edge(a, 0, d, 0));
    assert!(graph.add_data_edge(b, 0, e, 0));
    assert!(graph.add_signal_edge(c, 0, f, 0));
    assert!(graph.add_data_edge(d, 0, g, 0));
    assert!(graph.add_data_edge(e, 0, g, 1));
    let order = graph.execution_order();
    let mut sorted = order.clone();
    sorted.sort();
    assert_eq!(sorted, vec![0, 1, 2, 3, 4, 5, 6]);
    for (p, q) in [(a, c), (a, d), (b, e), (c, f), (d, g), (e, g)] {
        assert!(position(&order, p) < position(&order, q));
    }
    // Kahn's algorithm with ascending tie-breaks.
    assert_eq!(order, vec![0, 1, 2, 3, 4, 5, 6]);
}

#[test]
fn rejected_cycle_leaves_graph_usable() {
    let mut graph: Graph = ConnectionGraph::new();
    let a = node(&mut graph, 0);
    let b = node(&mut graph, 1);
    let c = node(&mut graph, 2);
    let d = node(&mut graph, 3);
    assert!(graph.add_data_edge(&a, 0, &c, 0));
    assert!(graph.add_data_edge(&c, 0, &d, 0));
    let before = graph.execution_order();
    assert!(!graph.add_signal_edge(&d, 0, &a, 0));
    assert_eq!(graph.execution_order(), before);
    assert_eq!(graph.signal_input(a.index(), 0), None);
    assert!(graph.add_data_edge(&b, 0, &c, 1));
    let order = graph.execution_order();
    assert!(position(&order, &b) < position(&order, &c));
    assert!(position(&order, &a) < position(&order, &c));
    assert!(position(&order, &c) < position(&order, &d));
}

#[test]
fn rejected_cycle_restores_prior_producer() {
    let mut graph: Graph = ConnectionGraph::new();
    let a = node(&mut graph, 0);
    let b = node(&mut graph, 1);
    let c = node(&mut graph, 2);
    assert!(graph.add_data_edge(&b, 0, &a, 0));
    assert!(graph.add_data_edge(&a, 0, &c, 0));
    assert!(!graph.add_data_edge(&c, 0, &a, 0));
    assert_eq!(graph.data_input(a.index(), 0), Some((b.index(), 0)));
    assert_eq!(graph.execution_order(), vec![1, 0, 2]);
}

#[test]
fn self_loop_is_rejected() {
    let mut graph: Graph = ConnectionGraph::new();
    let a = node(&mut graph, 0);
    assert!(!graph.add_signal_edge(&a, 0, &a, 0));
    assert!(!graph.add_data_edge(&a, 1, &a, 1));
    assert_eq!(graph.signal_input(0, 0), None);
    assert_eq!(graph.data_input(0, 1), None);
    assert_eq!(graph.execution_order(), vec![0]);
}

#[test]
fn registration_fills_to_capacity() {
    let mut graph: Graph = ConnectionGraph::new();
    assert_eq!(MAX_NODES, 64);
    for i in 0..MAX_NODES {
        let h = graph.add_node(Dummy(i as u32)).map_err(|_| "full").unwrap();
        assert_eq!(h.index(), i);
    }
    assert_eq!(graph.len(), 64);
    match graph.add_node(Dummy(999)) {
        Ok(_) => panic!("a full arena accepted a node"),
        Err(g) => assert_eq!(g, Dummy(999)),
    }
    assert_eq!(graph.len(), 64);
    assert_eq!(graph.execution_order(), (0..64).collect::<Vec<usize>>());
}

#[test]
fn new_nodes_join_the_order() {
    let mut graph: Graph = ConnectionGraph::new();
    assert_eq!(graph.len(), 0);
    assert!(graph.execution_order().is_empty());
    node(&mut graph, 7);
    node(&mut graph, 8);
    assert_eq!(graph.execution_order(), vec![0, 1]);
    assert_eq!(graph.gadget_mut(1), &mut Dummy(8));
}

#[test]
fn wiring_against_registration_order() {
    let mut graph: Graph = ConnectionGraph::new();
    let a = node(&mut graph, 0);
    let b = node(&mut graph, 1);
    let c = node(&mut graph, 2);
    assert!(graph.add_signal_edge(&c, 0, &a, 0));
    assert!(graph.add_data_edge(&b, 3, &c, 2));
    assert_eq!(graph.execution_order(), vec![1, 2, 0]);
}

#[test]
fn rewiring_replaces_the_producer() {
    let mut graph: Graph = ConnectionGraph::new();
    let a = node(&mut graph, 0);
    let b = node(&mut graph, 1);
    let c = node(&mut graph, 2);
    assert!(graph.add_data_edge(&a, 1, &c, 0));
    assert!(graph.add_data_edge(&b, 2, &c, 0));
    assert_eq!(graph.data_input(c.index(), 0), Some((b.index(), 2)));
    // a no longer feeds c, so c may now feed a.
    assert!(graph.add_signal_edge(&c, 0, &a, 5));
    assert_eq!(graph.signal_input(a.index(), 5), Some((c.index(), 0)));
    assert_eq!(graph.execution_order(), vec![1, 2, 0]);
}

#[test]
fn out_of_range_ports_and_handles_are_rejected() {
    let mut graph: Graph = ConnectionGraph::new();
    let a = node(&mut graph, 0);
    let b = node(&mut graph, 1);
    assert!(!graph.add_data_edge(&a, 32, &b, 0));
    assert!(!graph.add_data_edge(&a, 0, &b, 32));
    assert!(!graph.add_signal_edge(&a, 32, &b, 0));
    assert!(!graph.add_signal_edge(&a, 0, &b, 32));
    assert!(graph.add_signal_edge(&a, 31, &b, 31));

    let mut other: Graph = ConnectionGraph::new();
    let foreign: Vec<Handle> = (0..3).map(|t| node(&mut other, t)).collect();
    assert!(!graph.add_data_edge(&foreign[2], 0, &b, 0));
    assert!(!graph.add_data_edge(&a, 0, &foreign[2], 0));
    assert_eq!(graph.data_input(b.index(), 0), None);
}

#[test]
fn chunk_plan_splits_frames() {
    let graph: Graph = ConnectionGraph::new();
    assert_eq!(graph.chunk_lengths(100), vec![32, 32, 32, 4]);
    assert_eq!(graph.chunk_lengths(64), vec![32, 32]);
    assert_eq!(graph.chunk_lengths(5), vec![5]);
    assert!(graph.chunk_lengths(0).is_empty());
    let small: ConnectionGraph<Dummy, 1> = ConnectionGraph::new();
    assert_eq!(small.chunk_lengths(3), vec![1, 1, 1]);
}

#[test]
fn process_plan_visits_in_dependency_order() {
    let mut graph: Graph = ConnectionGraph::new();
    let a = node(&mut graph, 0);
    let b = node(&mut graph, 1);
    let c = node(&mut graph, 2);
    assert!(graph.add_signal_edge(&c, 0, &a, 0));
    assert!(graph.add_data_edge(&b, 0, &c, 0));
    let plan = graph.process_plan(100);
    let mut expected = Vec::new();
    for len in [32, 32, 32, 4] {
        for i in [1, 2, 0] {
            expected.push((len, i));
        }
    }
    assert_eq!(plan, expected);
    assert!(graph.process_plan(0).is_empty());
}

#[test]
fn process_plan_follows_rewiring() {
    let mut graph: Graph = ConnectionGraph::new();
    let a = node(&mut graph, 0);
    let b = node(&mut graph, 1);
    assert!(graph.add_data_edge(&a, 0, &b, 0));
    assert_eq!(graph.process_plan(10), vec![(10, 0), (10, 1)]);
    let c = node(&mut graph, 2);
    assert!(graph.add_data_edge(&c, 0, &b, 0));
    assert!(graph.add_data_edge(&b, 0, &a, 0));
    assert_eq!(graph.data_input(b.index(), 0), Some((c.index(), 0)));
    assert_eq!(graph.process_plan(40), vec![(32, 2), (32, 1), (32, 0), (8, 2), (8, 1), (8, 0)]);
}
