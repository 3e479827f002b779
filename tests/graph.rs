use gpi_graph::{alias_of, Graph, GraphError, GraphNode, NodeError, PortRef, Wire, IO};

#[derive(Clone, Debug)]
struct IdentityNode {}

#[derive(Clone, Debug)]
struct ConstantNode {
    value: u32,
}

#[derive(Clone, Debug)]
enum Node {
    Identity(IdentityNode),
    Constant(ConstantNode),
}

fn input<'a>(inputs: &'a [(String, Wire<u32>)], name: &str) -> &'a Wire<u32> {
    &inputs.iter().find(|(k, _)| k == name).unwrap().1
}

impl GraphNode<Node, (), u32> for Node {
    fn inputs(&self) -> Vec<(String, ())> {
        match self {
            Node::Identity(_node) => vec![("in".to_string(), ())],
            Node::Constant(_node) => vec![],
        }
    }

    fn outputs(&self) -> Vec<(String, ())> {
        match self {
            Node::Identity(_node) => vec![("out".to_string(), ())],
            Node::Constant(_node) => vec![("out".to_string(), ())],
        }
    }

    fn compute(self, inputs: Vec<(String, Wire<u32>)>) -> Result<(Vec<(String, u32)>, Node), NodeError> {
        Ok(match &self {
            Node::Identity(_node) => (vec![("out".to_string(), *input(&inputs, "in").value())], self),
            Node::Constant(node) => (vec![("out".to_string(), node.value)], self),
        })
    }
}

#[test]
fn sort() {
    let mut g: Graph<Node, (), u32> = Graph::new();

    let n8 = g.node(Node::Identity(IdentityNode {}));
    let n7 = g.node(Node::Identity(IdentityNode {}));
    let n6 = g.node(Node::Identity(IdentityNode {}));
    let n5 = g.node(Node::Identity(IdentityNode {}));
    let n4 = g.node(Node::Identity(IdentityNode {}));
    let n3 = g.node(Node::Identity(IdentityNode {}));
    let n2 = g.node(Node::Identity(IdentityNode {}));
    let n1 = g.node(Node::Identity(IdentityNode {}));

    g.connect((n1, "out"), (n3, "in")).unwrap();
    g.connect((n1, "out"), (n2, "in")).unwrap();
    g.connect((n3, "out"), (n4, "in")).unwrap();
    g.connect((n4, "out"), (n5, "in")).unwrap();
    g.connect((n5, "out"), (n6, "in")).unwrap();
    g.connect((n6, "out"), (n7, "in")).unwrap();
    g.connect((n7, "out"), (n8, "in")).unwrap();
    assert_eq!(g.topological_sort().unwrap(), vec![7, 6, 5, 4, 3, 2, 1, 0]);
}

#[test]
fn process() {
    let mut g: Graph<Node, (), u32> = Graph::new();

    let n1 = g.node(Node::Constant(ConstantNode { value: 7 }));
    let n2 = g.node(Node::Identity(IdentityNode {}));
    let n3 = g.node(Node::Identity(IdentityNode {}));
    let n4 = g.node(Node::Identity(IdentityNode {}));

    // leave a node unconnected to check that it doesn't get a value propagated
    let n_unconnected = g.node(Node::Identity(IdentityNode {}));

    g.connect((n1, "out"), (n3, "in")).unwrap();
    g.connect((n1, "out"), (n2, "in")).unwrap();
    g.connect((n3, "out"), (n4, "in")).unwrap();

    // propagate values; a node whose inputs have no value yet is skipped
    for nx in g.topological_sort().unwrap() {
        if let Some((node, input_guarded)) = g.get_compute(nx) {
            let (_, output) = Graph::compute_node(nx, node, input_guarded);
            g.update_wire_data(nx, output.unwrap().0);
        }
    }

    assert_eq!(*g.get_wire_data(&n1, "out").unwrap().value(), 7);
    assert_eq!(*g.get_wire_data(&n2, "out").unwrap().value(), 7);
    assert_eq!(*g.get_wire_data(&n3, "out").unwrap().value(), 7);
    assert!(g.get_wire_data(&n_unconnected, "out").is_none());
}

#[test]
fn linear_chain_orders_and_propagates() {
    let mut g: Graph<Node, (), u32> = Graph::new();
    let n1 = g.node(Node::Constant(ConstantNode { value: 42 }));
    let mut ids = vec![n1];
    for _ in 0..7 {
        ids.push(g.node(Node::Identity(IdentityNode {})));
    }
    for w in ids.windows(2) {
        g.connect((w[0], "out"), (w[1], "in")).unwrap();
    }
    assert_eq!(g.topological_sort().unwrap(), vec![0, 1, 2, 3, 4, 5, 6, 7]);
    let report = g.run_all().unwrap();
    assert_eq!(report.len(), 8);
    for (nx, outcome) in &report {
        assert_eq!(*outcome, Ok(true), "node {nx}");
    }
    for nx in ids {
        assert_eq!(*g.get_wire_data(&nx, "out").unwrap().value(), 42);
    }
}

#[test]
fn constant_fan_out_full_run() {
    let mut g: Graph<Node, (), u32> = Graph::new();
    let n1 = g.node(Node::Constant(ConstantNode { value: 7 }));
    let n2 = g.node(Node::Identity(IdentityNode {}));
    let n3 = g.node(Node::Identity(IdentityNode {}));
    let n4 = g.node(Node::Identity(IdentityNode {}));
    let n5 = g.node(Node::Identity(IdentityNode {}));
    g.connect((n1, "out"), (n2, "in")).unwrap();
    g.connect((n1, "out"), (n3, "in")).unwrap();
    g.connect((n3, "out"), (n4, "in")).unwrap();

    let report = g.run_all().unwrap();
    assert_eq!(report.len(), 5);
    assert!(report.contains(&(n5, Ok(false))));
    for nx in [n1, n2, n3, n4] {
        assert_eq!(*g.get_wire_data(&nx, "out").unwrap().value(), 7);
    }
    assert!(g.get_wire_data(&n5, "out").is_none());
}

#[test]
fn cycle_is_reported_not_aborted() {
    let mut g: Graph<Node, (), u32> = Graph::new();
    let a = g.node(Node::Identity(IdentityNode {}));
    let b = g.node(Node::Identity(IdentityNode {}));
    let c = g.node(Node::Identity(IdentityNode {}));
    g.connect((a, "out"), (b, "in")).unwrap();
    g.connect((b, "out"), (a, "in")).unwrap();
    g.connect((b, "out"), (c, "in")).unwrap();
    assert_eq!(g.topological_sort(), Err(GraphError::CycleDetected(a)));
    assert_eq!(g.subgraph_order(c), Err(GraphError::CycleDetected(a)));
    assert!(g.run_all().is_err());
}

#[test]
fn self_loop_is_a_cycle() {
    let mut g: Graph<Node, (), u32> = Graph::new();
    let a = g.node(Node::Constant(ConstantNode { value: 1 }));
    let b = g.node(Node::Identity(IdentityNode {}));
    g.connect((b, "out"), (b, "in")).unwrap();
    assert_eq!(g.topological_sort(), Err(GraphError::CycleDetected(b)));
    g.delete_node(b);
    assert_eq!(g.topological_sort(), Ok(vec![a]));
}

#[test]
fn delete_node_removes_its_edges() {
    let mut g: Graph<Node, (), u32> = Graph::new();
    let a = g.node(Node::Constant(ConstantNode { value: 3 }));
    let b = g.node(Node::Identity(IdentityNode {}));
    let c = g.node(Node::Identity(IdentityNode {}));
    g.connect((a, "out"), (b, "in")).unwrap();
    g.connect((b, "out"), (c, "in")).unwrap();
    g.connect((a, "out"), (c, "in")).unwrap();
    g.delete_node(b);
    assert_eq!(g.nodes_ref(), vec![a, c]);
    assert_eq!(g.outgoing_edges(&a).len(), 1);
    assert_eq!(g.incoming_edges(&c).len(), 1);
    assert_eq!(g.incoming_edges(&c)[0].0.node, a);
    let order = g.topological_sort().unwrap();
    assert_eq!(order, vec![a, c]);
    assert!(!order.contains(&b));
    // ids are never reused
    let d = g.node(Node::Identity(IdentityNode {}));
    assert_eq!(d, 3);
}

#[test]
fn shared_producer_aliases() {
    let mut g: Graph<Node, (), u32> = Graph::new();
    let src = g.node(Node::Constant(ConstantNode { value: 5 }));
    let other = g.node(Node::Constant(ConstantNode { value: 5 }));
    let x = g.node(Node::Identity(IdentityNode {}));
    let y = g.node(Node::Identity(IdentityNode {}));
    let z = g.node(Node::Identity(IdentityNode {}));
    g.connect((src, "out"), (x, "in")).unwrap();
    g.connect((src, "out"), (y, "in")).unwrap();
    g.connect((other, "out"), (z, "in")).unwrap();
    g.run_all().unwrap();
    let ix = g.get_input_data(&x).unwrap();
    let iy = g.get_input_data(&y).unwrap();
    let iz = g.get_input_data(&z).unwrap();
    assert!(alias_of(&ix[0].1, &iy[0].1));
    assert_eq!(*ix[0].1.value(), *iz[0].1.value());
    assert!(!alias_of(&ix[0].1, &iz[0].1));
    assert!(!ix[0].1.alias_of(&iz[0].1));
    let shared = ix[0].1.share();
    assert!(shared.alias_of(&iy[0].1));
    assert_eq!(*shared.value(), 5);
}

#[test]
fn recomputed_value_is_a_new_instance() {
    let mut g: Graph<Node, (), u32> = Graph::new();
    let a = g.node(Node::Constant(ConstantNode { value: 9 }));
    g.run_all().unwrap();
    let first = g.get_wire_data(&a, "out").unwrap();
    g.run_all().unwrap();
    let second = g.get_wire_data(&a, "out").unwrap();
    assert_eq!(*first.value(), *second.value());
    assert!(!first.alias_of(&second));
}

#[test]
fn subgraph_order_keeps_descendants_in_order() {
    let mut g: Graph<Node, (), u32> = Graph::new();
    let a = g.node(Node::Constant(ConstantNode { value: 1 }));
    let b = g.node(Node::Identity(IdentityNode {}));
    let c = g.node(Node::Identity(IdentityNode {}));
    let d = g.node(Node::Identity(IdentityNode {}));
    let e = g.node(Node::Identity(IdentityNode {}));
    g.connect((a, "out"), (b, "in")).unwrap();
    g.connect((a, "out"), (c, "in")).unwrap();
    g.connect((b, "out"), (d, "in")).unwrap();
    g.connect((c, "out"), (e, "in")).unwrap();
    let full = g.topological_sort().unwrap();
    assert_eq!(full, vec![a, c, e, b, d]);
    assert_eq!(g.subgraph_order(b).unwrap(), vec![b, d]);
    assert_eq!(g.subgraph_order(a).unwrap(), full);
    assert_eq!(g.subgraph_order(e).unwrap(), vec![e]);
    assert_eq!(g.subgraph_order(99).unwrap(), Vec::<u32>::new());
}

#[test]
fn run_from_recomputes_only_descendants() {
    let mut g: Graph<Node, (), u32> = Graph::new();
    let a = g.node(Node::Constant(ConstantNode { value: 1 }));
    let b = g.node(Node::Identity(IdentityNode {}));
    let c = g.node(Node::Constant(ConstantNode { value: 2 }));
    let d = g.node(Node::Identity(IdentityNode {}));
    g.connect((a, "out"), (b, "in")).unwrap();
    g.connect((c, "out"), (d, "in")).unwrap();
    g.run_all().unwrap();
    let kept = g.get_wire_data(&d, "out").unwrap();
    g.set_node_data(a, Node::Constant(ConstantNode { value: 10 }));
    let report = g.run_from(a).unwrap();
    assert_eq!(report, vec![(a, Ok(true)), (b, Ok(true))]);
    assert_eq!(*g.get_wire_data(&b, "out").unwrap().value(), 10);
    assert!(kept.alias_of(&g.get_wire_data(&d, "out").unwrap()));
}

#[test]
fn get_mut_node_changes_state() {
    let mut g: Graph<Node, (), u32> = Graph::new();
    let a = g.node(Node::Constant(ConstantNode { value: 1 }));
    if let Node::Constant(c) = g.get_mut_node(a) {
        c.value = 11;
    }
    g.run_all().unwrap();
    assert_eq!(*g.get_wire_data(&a, "out").unwrap().value(), 11);
    assert!(matches!(g.get_node(a), Node::Constant(ConstantNode { value: 11 })));
}

#[test]
fn roots_and_parents() {
    let mut g: Graph<Node, (), u32> = Graph::new();
    let a = g.node(Node::Constant(ConstantNode { value: 1 }));
    let b = g.node(Node::Constant(ConstantNode { value: 2 }));
    let c = g.node(Node::Identity(IdentityNode {}));
    g.connect((b, "out"), (c, "in")).unwrap();
    g.connect((a, "out"), (c, "in")).unwrap();
    assert_eq!(g.get_roots(), vec![a, b]);
    // the earliest connection into an input takes precedence
    let parent = g.get_parent(&c, "in").unwrap();
    assert_eq!(parent, PortRef::new(b, "out", IO::Out));
    assert!(g.get_parent(&a, "in").is_none());
    g.run_all().unwrap();
    assert_eq!(*g.get_wire_data(&c, "out").unwrap().value(), 2);
}

#[test]
fn remove_edge_disconnects_port() {
    let mut g: Graph<Node, (), u32> = Graph::new();
    let a = g.node(Node::Constant(ConstantNode { value: 1 }));
    let b = g.node(Node::Identity(IdentityNode {}));
    let c = g.node(Node::Identity(IdentityNode {}));
    g.connect((a, "out"), (b, "in")).unwrap();
    g.connect((a, "out"), (c, "in")).unwrap();
    assert_eq!(g.remove_edge(&PortRef::new(b, "in", IO::In)), Ok(()));
    assert_eq!(g.outgoing_edges(&a), vec![PortRef::new(c, "in", IO::In)]);
    assert_eq!(g.remove_edge(&PortRef::new(b, "nope", IO::In)), Err(GraphError::InvalidPort));
    assert_eq!(g.remove_edge(&PortRef::new(a, "out", IO::Out)), Ok(()));
    assert!(g.outgoing_edges(&a).is_empty());
}

#[test]
fn step_by_step_driver() {
    let mut g: Graph<Node, (), u32> = Graph::new();
    let a = g.node(Node::Constant(ConstantNode { value: 4 }));
    let b = g.node(Node::Identity(IdentityNode {}));
    g.connect((a, "out"), (b, "in")).unwrap();
    assert!(g.get_input_data(&b).is_none());
    assert!(g.get_compute(b).is_none());
    assert_eq!(g.run_node(b), Ok(false));
    assert_eq!(g.run_node(a), Ok(true));
    let outs = g.get_output_data(a);
    assert_eq!(outs.len(), 1);
    assert_eq!(outs[0].0, "out");
    assert_eq!(*outs[0].1.as_ref().unwrap().value(), 4);
    let (node, inputs) = g.get_compute(b).unwrap();
    let (id, result) = Graph::compute_node(b, node, inputs);
    assert_eq!(id, b);
    assert_eq!(g.commit(id, result), Ok(()));
    assert_eq!(*g.get_wire_data(&b, "out").unwrap().value(), 4);
    assert_eq!(
        g.commit(b, Err(NodeError::new("bad input"))),
        Err(GraphError::ComputeFailed(b, NodeError::new("bad input")))
    );
}

#[test]
fn update_wire_data_keeps_last_of_a_repeated_name() {
    let mut g: Graph<Node, (), u32> = Graph::default();
    let a = g.node(Node::Constant(ConstantNode { value: 1 }));
    g.update_wire_data(a, vec![("out".to_string(), 1), ("x".to_string(), 2), ("out".to_string(), 3)]);
    assert_eq!(*g.get_wire_data(&a, "out").unwrap().value(), 3);
    assert_eq!(*g.get_wire_data(&a, "x").unwrap().value(), 2);
    g.remove_wire_data(a);
    assert!(g.get_wire_data(&a, "x").is_none());
    g.update_wire_data(a, vec![("y".to_string(), 8)]);
    g.clear_wire_data();
    assert!(g.get_wire_data(&a, "y").is_none());
}

#[test]
fn shared_inputs_are_folded() {
    #[derive(Clone, Debug)]
    struct Pair;
    impl GraphNode<Pair, (), u32> for Pair {
        fn inputs(&self) -> Vec<(String, ())> {
            vec![("a".to_string(), ()), ("b".to_string(), ()), ("c".to_string(), ())]
        }
        fn outputs(&self) -> Vec<(String, ())> {
            vec![("out".to_string(), ()), ("x".to_string(), ())]
        }
        fn compute(self, inputs: Vec<(String, Wire<u32>)>) -> Result<(Vec<(String, u32)>, Pair), NodeError> {
            let sum = inputs.iter().map(|(_, w)| *w.value()).sum();
            Ok((vec![("out".to_string(), sum)], self))
        }
    }
    let mut g: Graph<Pair, (), u32> = Graph::new();
    let src = g.node(Pair);
    let sink = g.node(Pair);
    g.update_wire_data(src, vec![("out".to_string(), 2), ("x".to_string(), 2)]);
    assert!(g.get_input_data_mapped(&sink).is_none());
    g.connect((src, "out"), (sink, "a")).unwrap();
    g.connect((src, "x"), (sink, "b")).unwrap();
    g.connect((src, "out"), (sink, "c")).unwrap();
    let (names, data) = g.get_input_data_mapped(&sink).unwrap();
    let names: Vec<(&str, &str)> = names.iter().map(|(a, b)| (a.as_str(), b.as_str())).collect();
    assert_eq!(names, vec![("a", "a"), ("b", "b"), ("c", "a")]);
    assert_eq!(data.len(), 2);
    assert_eq!(data[0].0, "a");
    assert_eq!(data[1].0, "b");
    assert_eq!(*data[1].1.value(), 2);
}

#[test]
fn clone_copies_structure_without_values() {
    let mut g: Graph<Node, (), u32> = Graph::new();
    let a = g.node(Node::Constant(ConstantNode { value: 1 }));
    let b = g.node(Node::Identity(IdentityNode {}));
    g.connect((a, "out"), (b, "in")).unwrap();
    g.run_all().unwrap();
    let copy = g.clone();
    assert_eq!(copy.nodes_ref(), vec![a, b]);
    assert_eq!(copy.edges_ref(), g.edges_ref());
    assert!(copy.get_wire_data(&a, "out").is_none());
    assert_eq!(copy.next_node_id(), 2);
}

#[test]
fn restore_checks_ids() {
    let nodes = vec![(0, Node::Constant(ConstantNode { value: 1 })), (4, Node::Identity(IdentityNode {}))];
    let mut g: Graph<Node, (), u32> = Graph::restore(nodes, 5).unwrap();
    assert_eq!(g.nodes_ref(), vec![0, 4]);
    g.connect((0, "out"), (4, "in")).unwrap();
    assert_eq!(g.node(Node::Identity(IdentityNode {})), 5);
    let bad = vec![(3, Node::Identity(IdentityNode {})), (2, Node::Identity(IdentityNode {}))];
    assert!(Graph::<Node, (), u32>::restore(bad, 9).is_none());
    let too_high = vec![(9, Node::Identity(IdentityNode {}))];
    assert!(Graph::<Node, (), u32>::restore(too_high, 9).is_none());
}

#[test]
fn cycle_error_names_a_node_on_the_cycle() {
    let mut g: Graph<Node, (), u32> = Graph::new();
    let n0 = g.node(Node::Identity(IdentityNode {}));
    let n1 = g.node(Node::Identity(IdentityNode {}));
    let n2 = g.node(Node::Identity(IdentityNode {}));
    g.connect((n1, "out"), (n0, "in")).unwrap();
    g.connect((n1, "out"), (n2, "in")).unwrap();
    g.connect((n2, "out"), (n1, "in")).unwrap();
    assert_eq!(g.topological_sort(), Err(GraphError::CycleDetected(n1)));
    assert_eq!(g.subgraph_order(n0), Err(GraphError::CycleDetected(n1)));
    assert_eq!(g.run_all(), Err(GraphError::CycleDetected(n1)));
}

#[test]
fn replacing_a_node_drops_edges_to_vanished_ports() {
    let mut g: Graph<Node, (), u32> = Graph::new();
    let a = g.node(Node::Constant(ConstantNode { value: 1 }));
    let b = g.node(Node::Identity(IdentityNode {}));
    let c = g.node(Node::Identity(IdentityNode {}));
    g.connect((a, "out"), (b, "in")).unwrap();
    g.connect((b, "out"), (c, "in")).unwrap();
    // a constant declares no input: the edge into b.in goes, b.out stays
    g.set_node_data(b, Node::Constant(ConstantNode { value: 5 }));
    assert!(g.incoming_edges(&b).is_empty());
    assert_eq!(g.outgoing_edges(&b), vec![PortRef::new(c, "in", IO::In)]);
    assert!(g.outgoing_edges(&a).is_empty());
    g.run_all().unwrap();
    assert_eq!(*g.get_wire_data(&c, "out").unwrap().value(), 5);
}
