use gpi_graph::{
    ElemKind, Graph, GraphError, GraphNode, NodeError, PortCompat, PortKind, PortRef, Wire, WireStore, IO,
};

#[derive(Clone, Debug, PartialEq)]
enum Op {
    Const(i64),
    Add,
    Neg,
    Fail,
    Counter(i64),
    Pair(i64),
}

fn integer() -> PortKind {
    PortKind::Scalar(ElemKind::Integer)
}

fn port(name: &str, kind: PortKind) -> (String, PortKind) {
    (name.to_string(), kind)
}

fn read(inputs: &[(String, Wire<i64>)], name: &str) -> Result<i64, NodeError> {
    inputs
        .iter()
        .find(|(k, _)| k == name)
        .map(|(_, w)| *w.value())
        .ok_or_else(|| NodeError::new(name))
}

impl GraphNode<Op, PortKind, i64> for Op {
    fn inputs(&self) -> Vec<(String, PortKind)> {
        match self {
            Op::Const(_) | Op::Counter(_) | Op::Pair(_) => vec![],
            Op::Add => vec![port("a", integer()), port("b", integer())],
            Op::Neg | Op::Fail => vec![port("a", integer())],
        }
    }

    fn outputs(&self) -> Vec<(String, PortKind)> {
        match self {
            Op::Pair(_) => vec![port("out", PortKind::Array(ElemKind::Integer, 2))],
            _ => vec![port("out", integer())],
        }
    }

    fn compute(self, inputs: Vec<(String, Wire<i64>)>) -> Result<(Vec<(String, i64)>, Op), NodeError> {
        let out = match &self {
            Op::Const(v) | Op::Pair(v) => *v,
            Op::Add => read(&inputs, "a")? + read(&inputs, "b")?,
            Op::Neg => -read(&inputs, "a")?,
            Op::Fail => return Err(NodeError::new("always fails")),
            Op::Counter(n) => {
                return Ok((vec![("out".to_string(), *n)], Op::Counter(n + 1)));
            }
        };
        Ok((vec![("out".to_string(), out)], self))
    }
}

#[test]
fn arithmetic_graph_runs() {
    let mut g: Graph<Op, PortKind, i64> = Graph::new();
    let a = g.node(Op::Const(3));
    let b = g.node(Op::Const(4));
    let s = g.node(Op::Add);
    let n = g.node(Op::Neg);
    g.connect((a, "out"), (s, "a")).unwrap();
    g.connect((b, "out"), (s, "b")).unwrap();
    g.connect((s, "out"), (n, "a")).unwrap();
    let report = g.run_all().unwrap();
    assert!(report.iter().all(|(_, r)| *r == Ok(true)));
    assert_eq!(*g.get_wire_data(&s, "out").unwrap().value(), 7);
    assert_eq!(*g.get_wire_data(&n, "out").unwrap().value(), -7);
}

#[test]
fn incompatible_connection_leaves_edges_unchanged() {
    let mut g: Graph<Op, PortKind, i64> = Graph::new();
    let p = g.node(Op::Pair(1));
    let c = g.node(Op::Const(1));
    let n = g.node(Op::Neg);
    g.connect((c, "out"), (n, "a")).unwrap();
    assert_eq!(g.connect((p, "out"), (n, "a")), Err(GraphError::IncompatiblePorts));
    assert!(g.outgoing_edges(&p).is_empty());
    assert_eq!(g.incoming_edges(&n).len(), 1);
    assert_eq!(g.get_parent(&n, "a"), Some(PortRef::new(c, "out", IO::Out)));
}

#[test]
fn invalid_ports_are_rejected() {
    let mut g: Graph<Op, PortKind, i64> = Graph::new();
    let c = g.node(Op::Const(1));
    let n = g.node(Op::Neg);
    let from = PortRef::new(c, "out", IO::Out);
    let to = PortRef::new(n, "a", IO::In);
    // direction mismatch
    assert_eq!(g.add_edge_from_ref(&to, &from), Err(GraphError::InvalidPort));
    assert_eq!(g.add_edge_from_ref(&from, &PortRef::new(n, "a", IO::Out)), Err(GraphError::InvalidPort));
    // unknown port and unknown node
    assert_eq!(g.connect((c, "nope"), (n, "a")), Err(GraphError::InvalidPort));
    assert_eq!(g.connect((c, "out"), (n, "b")), Err(GraphError::InvalidPort));
    assert_eq!(g.connect((c, "out"), (17, "a")), Err(GraphError::InvalidPort));
    assert!(g.incoming_edges(&n).is_empty());
    assert_eq!(g.add_edge_from_ref(&from, &to), Ok(()));
    assert_eq!(g.incoming_edges(&n), vec![(from, to)]);
}

#[test]
fn failure_stops_only_its_descendants() {
    let mut g: Graph<Op, PortKind, i64> = Graph::new();
    let c = g.node(Op::Const(5));
    let f = g.node(Op::Fail);
    let after = g.node(Op::Neg);
    let side = g.node(Op::Neg);
    g.connect((c, "out"), (f, "a")).unwrap();
    g.connect((f, "out"), (after, "a")).unwrap();
    g.connect((c, "out"), (side, "a")).unwrap();
    let report = g.run_all().unwrap();
    assert!(report.contains(&(f, Err(GraphError::ComputeFailed(f, NodeError::new("always fails"))))));
    assert!(report.contains(&(after, Ok(false))));
    assert!(report.contains(&(side, Ok(true))));
    assert_eq!(*g.get_wire_data(&side, "out").unwrap().value(), -5);
    assert!(g.get_wire_data(&after, "out").is_none());
    assert_eq!(*g.get_wire_data(&c, "out").unwrap().value(), 5);
}

#[test]
fn node_state_evolves_across_runs() {
    let mut g: Graph<Op, PortKind, i64> = Graph::new();
    let k = g.node(Op::Counter(0));
    g.run_all().unwrap();
    assert_eq!(*g.get_wire_data(&k, "out").unwrap().value(), 0);
    g.run_all().unwrap();
    assert_eq!(*g.get_wire_data(&k, "out").unwrap().value(), 1);
    assert_eq!(*g.get_node(k), Op::Counter(2));
}

#[test]
fn port_index_finds_declared_position() {
    let mut g: Graph<Op, PortKind, i64> = Graph::new();
    let s = g.node(Op::Add);
    assert_eq!(g.port_index(&PortRef::new(s, "a", IO::In)), 0);
    assert_eq!(g.port_index(&PortRef::new(s, "b", IO::In)), 1);
    assert_eq!(g.port_index(&PortRef::new(s, "out", IO::Out)), 0);
}

#[test]
fn port_kind_connection_rule() {
    let whole = PortKind::Scalar(ElemKind::Integer);
    let real = PortKind::Scalar(ElemKind::Real);
    assert!(whole.can_connect(&whole));
    assert!(!whole.can_connect(&real));
    assert!(whole.can_connect(&PortKind::Array(ElemKind::Integer, 1)));
    assert!(!whole.can_connect(&PortKind::Array(ElemKind::Integer, 2)));
    assert!(!whole.can_connect(&PortKind::Array(ElemKind::Real, 1)));
    assert!(PortKind::Array(ElemKind::Complex, 3).can_connect(&PortKind::Array(ElemKind::Complex, 3)));
    assert!(!PortKind::Array(ElemKind::Complex, 3).can_connect(&PortKind::Array(ElemKind::Complex, 2)));
    assert!(!PortKind::Array(ElemKind::Integer, 1).can_connect(&whole));
    assert!(PortKind::Opaque.can_connect(&PortKind::Opaque));
    assert!(!PortKind::Opaque.can_connect(&whole));
    assert!(!whole.can_connect(&PortKind::Opaque));
    assert!(().can_connect(&()));
}

#[test]
fn wire_store_put_and_get() {
    let mut store: WireStore<String> = WireStore::new();
    assert!(store.get(0, "out").is_none());
    store.put(0, "out", "a".to_string());
    let first = store.get(0, "out").unwrap();
    assert_eq!(first.value(), "a");
    store.put(1, "out", "a".to_string());
    let other = store.get(1, "out").unwrap();
    assert!(!first.alias_of(&other));
    assert!(first.alias_of(&store.get(0, "out").unwrap()));
    store.put(0, "out", "b".to_string());
    let second = store.get(0, "out").unwrap();
    assert_eq!(second.value(), "b");
    assert!(!first.alias_of(&second));
    assert_eq!(first.value(), "a");
    assert_eq!(store.fresh_stamp(), 3);
    store.drop_node(0);
    assert!(store.get(0, "out").is_none());
    assert!(store.get(1, "out").is_some());
    store.clear();
    assert!(store.get(1, "out").is_none());
}

#[test]
fn empty_graph_has_empty_order() {
    let mut g: Graph<Op, PortKind, i64> = Graph::new();
    assert_eq!(g.topological_sort(), Ok(vec![]));
    assert_eq!(g.subgraph_order(0), Ok(vec![]));
    assert_eq!(g.run_all(), Ok(vec![]));
    assert!(g.get_roots().is_empty());
}

#[test]
fn forced_run_reports_missing_input() {
    let mut g: Graph<Op, PortKind, i64> = Graph::new();
    let c = g.node(Op::Const(2));
    let n = g.node(Op::Neg);
    assert_eq!(g.force_node(n), Err(GraphError::MissingInput(n)));
    g.connect((c, "out"), (n, "a")).unwrap();
    assert_eq!(g.force_node(n), Err(GraphError::MissingInput(n)));
    assert_eq!(g.force_node(c), Ok(()));
    assert_eq!(g.force_node(n), Ok(()));
    assert_eq!(*g.get_wire_data(&n, "out").unwrap().value(), -2);
}

#[test]
fn diamond_orders_every_node_after_its_ancestors() {
    let mut g: Graph<Op, PortKind, i64> = Graph::new();
    let s = g.node(Op::Add);
    let a = g.node(Op::Const(1));
    let n = g.node(Op::Neg);
    let b = g.node(Op::Const(2));
    g.connect((a, "out"), (n, "a")).unwrap();
    g.connect((n, "out"), (s, "a")).unwrap();
    g.connect((b, "out"), (s, "b")).unwrap();
    let order = g.topological_sort().unwrap();
    assert_eq!(order, vec![b, a, n, s]);
    let at = |x: u32| order.iter().position(|&y| y == x).unwrap();
    assert!(at(a) < at(n) && at(n) < at(s) && at(b) < at(s));
    g.run_all().unwrap();
    assert_eq!(*g.get_wire_data(&s, "out").unwrap().value(), 1);
}
