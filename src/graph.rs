use vstd::prelude::*;

use crate::error::{GraphError, NodeError};
use crate::port::{PortCompat, PortRef, IO};
use crate::topology::find_port;
use crate::wire::{Wire, WireKey, WireStore};

verus! {

/// Declared ports with their names as characters.
pub open spec fn port_seq<P>(ports: Seq<(String, P)>) -> Seq<(Seq<char>, P)> {
    ports.map_values(|e: (String, P)| (e.0@, e.1))
}

/// `i` is the position of the first port called `name`.
pub open spec fn is_first_port<P>(ports: Seq<(Seq<char>, P)>, name: Seq<char>, i: int) -> bool {
    &&& 0 <= i < ports.len()
    &&& ports[i].0 == name
    &&& forall|j: int| 0 <= j < i ==> ports[j].0 != name
}

/// Some port is called `name`.
pub open spec fn declares<P>(ports: Seq<(Seq<char>, P)>, name: Seq<char>) -> bool {
    exists|i: int| 0 <= i < ports.len() && ports[i].0 == name
}

/// The type of the first port called `name` (where one is).
pub open spec fn type_of_port<P>(ports: Seq<(Seq<char>, P)>, name: Seq<char>) -> P {
    ports[choose|i: int| is_first_port(ports, name, i)].1
}

/// A computation node. `inputs` and `outputs` declare the node's ports, in
/// order, as (name, type) pairs; `compute` takes one shared value per
/// declared input and returns the values of its outputs together with the
/// node's new state. The graph records the declared ports whenever it
/// stores a node.
pub trait GraphNode<NodeData, PortType, WireData>: Sized {
    fn inputs(&self) -> Vec<(String, PortType)>;

    fn outputs(&self) -> Vec<(String, PortType)>;

    fn compute(self, inputs: Vec<(String, Wire<WireData>)>) -> Result<
        (Vec<(String, WireData)>, NodeData),
        NodeError,
    >;
}

/// The declared input and output ports of one node.
pub type NodePorts<P> = (Vec<(String, P)>, Vec<(String, P)>);

/// A directed graph of computation nodes wired port to port, with the values
/// that its nodes last computed.
///
/// `ports[i]` holds the ports that `nodes[i]` declares. Node ids are handed
/// out in increasing order and never reused, so the node list is sorted by
/// id. Every edge runs from an output port to an input port of nodes in the
/// graph.
pub struct Graph<NodeData, PortType, WireData> {
    pub(crate) nodes: Vec<(u32, NodeData)>,
    pub(crate) ports: Vec<NodePorts<PortType>>,
    pub(crate) edges: Vec<(PortRef, PortRef)>,
    pub(crate) wire_data: WireStore<WireData>,
    pub(crate) next_id: u32,
}

/// The two ends of an edge.
pub type Edge = (PortRef, PortRef);

impl<N, P, W> Graph<N, P, W> {
    /// The node ids, in the order of insertion (which is ascending).
    pub open(crate) spec fn ids(&self) -> Seq<u32> {
        self.nodes@.map_values(|e: (u32, N)| e.0)
    }

    /// Node `n` is in the graph.
    pub open(crate) spec fn has_node(&self, n: u32) -> bool {
        exists|i: int| 0 <= i < self.nodes@.len() && self.nodes@[i].0 == n
    }

    /// Position of node `n` in the node list.
    pub open(crate) spec fn pos(&self, n: u32) -> int {
        choose|i: int| 0 <= i < self.nodes@.len() && self.nodes@[i].0 == n
    }

    /// The stored state of node `n`.
    pub open(crate) spec fn node_at(&self, n: u32) -> N {
        self.nodes@[self.pos(n)].1
    }

    /// The input ports that node `n` declares.
    pub open(crate) spec fn input_ports(&self, n: u32) -> Seq<(Seq<char>, P)> {
        port_seq(self.ports@[self.pos(n)].0@)
    }

    /// The output ports that node `n` declares.
    pub open(crate) spec fn output_ports(&self, n: u32) -> Seq<(Seq<char>, P)> {
        port_seq(self.ports@[self.pos(n)].1@)
    }

    /// The edges, in the order they were made.
    pub open(crate) spec fn edge_seq(&self) -> Seq<Edge> {
        self.edges@
    }

    /// Some edge runs from a port of `a` to a port of `b`.
    pub open(crate) spec fn has_edge(&self, a: u32, b: u32) -> bool {
        exists|k: int|
            0 <= k < self.edges@.len() && self.edges@[k].0.node == a && self.edges@[k].1.node == b
    }

    /// Some edge ends at a port of `n`.
    pub open(crate) spec fn has_incoming(&self, n: u32) -> bool {
        exists|k: int| 0 <= k < self.edges@.len() && self.edges@[k].1.node == n
    }

    /// The stored values, by (node id, output port name), as (stamp, value).
    pub open(crate) spec fn wires(&self) -> Map<WireKey, (u64, W)> {
        self.wire_data.view()
    }

    /// The stamp that the next stored value gets.
    pub open(crate) spec fn fresh(&self) -> u64 {
        self.wire_data.fresh()
    }

    /// The id that the next inserted node gets.
    pub open(crate) spec fn next_index(&self) -> u32 {
        self.next_id
    }

    /// The two graphs differ at most in the state of node `nx`, which is
    /// `value` in this one.
    pub open(crate) spec fn only_state_changed(&self, other: &Self, nx: u32, value: N) -> bool {
        &&& self.nodes@ == other.nodes@.update(other.pos(nx), (nx, value))
        &&& self.ports == other.ports
        &&& self.edges == other.edges
        &&& self.wire_data == other.wire_data
        &&& self.next_id == other.next_id
    }

    /// Keeps the edges whose ends at node `nx` are ports that `nx` declares.
    pub open(crate) spec fn fits_ports(&self, nx: u32) -> spec_fn(Edge) -> bool {
        |e: Edge|
            (e.0.node != nx || declares(self.output_ports(nx), e.0.name@)) && (e.1.node != nx
                || declares(self.input_ports(nx), e.1.name@))
    }

    /// Only the stored values of the two graphs may differ.
    pub open(crate) spec fn same_but_wires(&self, other: &Self) -> bool {
        &&& self.nodes == other.nodes
        &&& self.ports == other.ports
        &&& self.edges == other.edges
        &&& self.next_id == other.next_id
    }

    /// The graph's invariant: one port record per node, ids ascending and
    /// below the next id, every edge from an output to an input of nodes in
    /// the graph, and a well-formed value store.
    pub open(crate) spec fn wf(&self) -> bool {
        &&& self.ports@.len() == self.nodes@.len()
        &&& forall|i: int, j: int|
            0 <= i < j < self.nodes@.len() ==> self.nodes@[i].0 < self.nodes@[j].0
        &&& forall|i: int| 0 <= i < self.nodes@.len() ==> self.nodes@[i].0 < self.next_id
        &&& forall|k: int|
            0 <= k < self.edges@.len() ==> {
                &&& self.edges@[k].0.io == IO::Out
                &&& self.edges@[k].1.io == IO::In
                &&& self.has_node(self.edges@[k].0.node)
                &&& self.has_node(self.edges@[k].1.node)
            }
        &&& self.wire_data.wf()
    }

    /// Graphs with one node list have the same nodes.
    pub(crate) proof fn lemma_same_nodes(&self, other: &Self)
        requires
            self.nodes@ == other.nodes@,
            self.ports@ == other.ports@,
        ensures
            forall|n: u32| self.has_node(n) == other.has_node(n),
            forall|n: u32| self.node_at(n) == other.node_at(n),
            forall|n: u32| self.input_ports(n) == other.input_ports(n),
            forall|n: u32| self.output_ports(n) == other.output_ports(n),
            self.ids() == other.ids(),
    {
        assert forall|n: u32| self.has_node(n) == other.has_node(n) by {
            if other.has_node(n) {
                let i = other.pos(n);
                assert(self.nodes@[i].0 == n);
            }
        }
    }

    /// Graphs with one id list have the same nodes.
    pub(crate) proof fn lemma_same_ids(&self, other: &Self)
        requires
            self.ids() == other.ids(),
        ensures
            forall|n: u32| self.has_node(n) == other.has_node(n),
    {
        assert forall|n: u32| self.has_node(n) == other.has_node(n) by {
            assert(self.ids().len() == self.nodes@.len());
            assert(other.ids().len() == other.nodes@.len());
            if other.has_node(n) {
                let i = other.pos(n);
                assert(other.ids()[i] == n);
                assert(self.ids()[i] == self.nodes@[i].0);
            }
            if self.has_node(n) {
                let i = self.pos(n);
                assert(self.ids()[i] == n);
                assert(other.ids()[i] == other.nodes@[i].0);
            }
        }
    }

    /// In a well-formed graph, `pos` finds each node where it stands.
    pub(crate) proof fn lemma_pos(&self, i: int)
        requires
            self.wf(),
            0 <= i < self.nodes@.len(),
        ensures
            self.has_node(self.nodes@[i].0),
            self.pos(self.nodes@[i].0) == i,
            self.node_at(self.nodes@[i].0) == self.nodes@[i].1,
    {
        let n = self.nodes@[i].0;
        assert(self.has_node(n));
        let j = self.pos(n);
        if j < i {
            assert(self.nodes@[j].0 < self.nodes@[i].0);
        } else if j > i {
            assert(self.nodes@[i].0 < self.nodes@[j].0);
        }
    }

    /// Position of node `n` in the node list, if it is in the graph.
    pub(crate) fn find_node(&self, n: u32) -> (r: Option<usize>)
        requires
            self.wf(),
        ensures
            match r {
                Some(i) => i < self.nodes@.len() && self.nodes@[i as int].0 == n && self.pos(n)
                    == i,
                None => !self.has_node(n),
            },
    {
        let mut i: usize = 0;
        while i < self.nodes.len()
            invariant
                self.wf(),
                i <= self.nodes@.len(),
                forall|j: int| 0 <= j < i ==> self.nodes@[j].0 != n,
            decreases self.nodes@.len() - i,
        {
            if self.nodes[i].0 == n {
                proof {
                    self.lemma_pos(i as int);
                }
                return Some(i);
            }
            i = i + 1;
        }
        None
    }

    /// An empty graph.
    pub fn new() -> (r: Self)
        ensures
            r.wf(),
            r.ids() == Seq::<u32>::empty(),
            r.edge_seq() == Seq::<Edge>::empty(),
            r.wires() == Map::<WireKey, (u64, W)>::empty(),
            r.next_index() == 0,
            r.fresh() == 0,
    {
        let r = Graph {
            nodes: Vec::new(),
            ports: Vec::new(),
            edges: Vec::new(),
            wire_data: WireStore::new(),
            next_id: 0,
        };
        assert(r.ids() =~= Seq::<u32>::empty());
        r
    }

    /// The ids of all nodes, in insertion order.
    pub fn nodes_ref(&self) -> (r: Vec<u32>)
        ensures
            r@ == self.ids(),
    {
        let mut r: Vec<u32> = Vec::new();
        let mut i: usize = 0;
        while i < self.nodes.len()
            invariant
                i <= self.nodes@.len(),
                r@ == self.ids().subrange(0, i as int),
            decreases self.nodes@.len() - i,
        {
            r.push(self.nodes[i].0);
            i = i + 1;
            assert(r@ =~= self.ids().subrange(0, i as int));
        }
        assert(r@ =~= self.ids());
        r
    }

    /// The id that the next inserted node will get.
    pub fn next_node_id(&self) -> (r: u32)
        ensures
            r == self.next_index(),
    {
        self.next_id
    }

    /// A copy of the edge list, in the order the edges were made.
    pub fn edges_ref(&self) -> (r: Vec<Edge>)
        ensures
            r@ == self.edge_seq(),
    {
        let mut r: Vec<Edge> = Vec::new();
        let mut i: usize = 0;
        while i < self.edges.len()
            invariant
                i <= self.edges@.len(),
                r@ == self.edges@.subrange(0, i as int),
            decreases self.edges@.len() - i,
        {
            r.push((self.edges[i].0.clone(), self.edges[i].1.clone()));
            i = i + 1;
            assert(r@ =~= self.edges@.subrange(0, i as int));
        }
        assert(r@ =~= self.edges@);
        r
    }

    /// The state of node `nx`.
    pub fn get_node(&self, nx: u32) -> (r: &N)
        requires
            self.wf(),
            self.has_node(nx),
        ensures
            *r == self.node_at(nx),
    {
        let i = self.find_node(nx).unwrap();
        &self.nodes[i].1
    }

    /// The state of node `nx`, to change in place. The ports recorded for
    /// the node stay as they were: a change of ports goes through
    /// `set_node_data`.
    pub fn get_mut_node(&mut self, nx: u32) -> (r: &mut N)
        requires
            old(self).wf(),
            old(self).has_node(nx),
        ensures
            *r == old(self).node_at(nx),
            final(self).only_state_changed(old(self), nx, *final(r)),
    {
        let i = self.find_node(nx).unwrap();
        &mut self.nodes[i].1
    }

    /// The value stored for output `port_name` of node `nx`, as a new handle
    /// to it.
    pub fn get_wire_data(&self, nx: &u32, port_name: &str) -> (r: Option<Wire<W>>)
        requires
            self.wf(),
        ensures
            match r {
                Some(w) => self.wires().contains_key((*nx, port_name@)) && self.wires()[(
                *nx,
                port_name@,
                )] == (w.id(), w.val()),
                None => !self.wires().contains_key((*nx, port_name@)),
            },
    {
        self.wire_data.get(*nx, port_name)
    }
}

/// A copy of a port list: the same names, each type cloned.
fn clone_ports<P: Clone>(v: &Vec<(String, P)>) -> (r: Vec<(String, P)>)
    ensures
        r@.len() == v@.len(),
        forall|i: int| 0 <= i < v@.len() ==> (#[trigger] r@[i]).0 == v@[i].0 && cloned(v@[i].1,
            r@[i].1),
{
    let mut r: Vec<(String, P)> = Vec::new();
    let mut i: usize = 0;
    while i < v.len()
        invariant
            i <= v@.len(),
            r@.len() == i,
            forall|j: int| 0 <= j < i ==> (#[trigger] r@[j]).0 == v@[j].0 && cloned(v@[j].1,
                r@[j].1),
        decreases v@.len() - i,
    {
        r.push((v[i].0.clone(), v[i].1.clone()));
        i = i + 1;
    }
    r
}

/// A copy of the nodes, their ports and the edges. The copy holds no
/// stored values; its stamps go on from those of the original, so handles
/// of the copy are not to be compared with handles of the original.
impl<N: Clone, P: Clone, W> Clone for Graph<N, P, W> {
    fn clone(&self) -> (r: Self)
        ensures
            self.wf() ==> r.wf(),
            r.ids() == self.ids(),
            self.wf() ==> forall|n: u32| #[trigger]
                self.has_node(n) ==> cloned(self.node_at(n), r.node_at(n)) && r.input_ports(n).len()
                    == self.input_ports(n).len() && r.output_ports(n).len()
                        == self.output_ports(n).len(),
            r.edge_seq() == self.edge_seq(),
            r.wires() == Map::<WireKey, (u64, W)>::empty(),
            r.fresh() == self.fresh(),
            r.next_index() == self.next_index(),
    {
        let mut nodes: Vec<(u32, N)> = Vec::new();
        let mut ports: Vec<NodePorts<P>> = Vec::new();
        let mut i: usize = 0;
        while i < self.nodes.len()
            invariant
                i <= self.nodes@.len(),
                nodes@.len() == i,
                forall|j: int| 0 <= j < i ==> (#[trigger] nodes@[j]).0 == self.nodes@[j].0
                    && cloned(self.nodes@[j].1, nodes@[j].1),
            decreases self.nodes@.len() - i,
        {
            nodes.push((self.nodes[i].0, self.nodes[i].1.clone()));
            i = i + 1;
        }
        let mut i: usize = 0;
        while i < self.ports.len()
            invariant
                nodes@.len() == self.nodes@.len(),
                forall|j: int| 0 <= j < self.nodes@.len() ==> (#[trigger] nodes@[j]).0
                    == self.nodes@[j].0 && cloned(self.nodes@[j].1, nodes@[j].1),
                i <= self.ports@.len(),
                ports@.len() == i,
                forall|j: int| 0 <= j < i ==> #[trigger] ports@[j].0@.len()
                    == self.ports@[j].0@.len() && ports@[j].1@.len() == self.ports@[j].1@.len(),
            decreases self.ports@.len() - i,
        {
            ports.push((clone_ports(&self.ports[i].0), clone_ports(&self.ports[i].1)));
            i = i + 1;
        }
        let mut edges: Vec<Edge> = Vec::new();
        let mut i: usize = 0;
        while i < self.edges.len()
            invariant
                nodes@.len() == self.nodes@.len(),
                forall|j: int| 0 <= j < self.nodes@.len() ==> (#[trigger] nodes@[j]).0
                    == self.nodes@[j].0 && cloned(self.nodes@[j].1, nodes@[j].1),
                ports@.len() == self.ports@.len(),
                forall|j: int| 0 <= j < self.ports@.len() ==> #[trigger] ports@[j].0@.len()
                    == self.ports@[j].0@.len() && ports@[j].1@.len() == self.ports@[j].1@.len(),
                i <= self.edges@.len(),
                edges@ == self.edges@.subrange(0, i as int),
            decreases self.edges@.len() - i,
        {
            edges.push((self.edges[i].0.clone(), self.edges[i].1.clone()));
            i = i + 1;
            assert(edges@ =~= self.edges@.subrange(0, i as int));
        }
        assert(edges@ =~= self.edges@);
        let mut wire_data = WireStore::new();
        wire_data.skip_to(self.wire_data.fresh_stamp());
        let r = Graph { nodes, ports, edges, wire_data, next_id: self.next_id };
        proof {
            assert(r.ids() =~= self.ids());
            assert forall|n: u32| r.has_node(n) == self.has_node(n) by {
                if self.has_node(n) {
                    let j = self.pos(n);
                    assert(r.nodes@[j].0 == n);
                }
                if r.has_node(n) {
                    let j = r.pos(n);
                    assert(self.nodes@[j].0 == n);
                }
            }
            if self.wf() {
                assert(r.wf());
                assert forall|n: u32| #[trigger] self.has_node(n) implies cloned(self.node_at(n),
                    r.node_at(n))
                    && r.input_ports(n).len() == self.input_ports(n).len()
                        && r.output_ports(n).len()
                    == self.output_ports(n).len() by {
                    let j = self.pos(n);
                    self.lemma_pos(j);
                    r.lemma_pos(j);
                }
            }
        }
        r
    }
}

impl<N, P, W> Default for Graph<N, P, W> {
    fn default() -> (r: Self)
        ensures
            r.wf(),
            r.ids() == Seq::<u32>::empty(),
            r.edge_seq() == Seq::<Edge>::empty(),
            r.wires() == Map::<WireKey, (u64, W)>::empty(),
            r.next_index() == 0,
            r.fresh() == 0,
    {
        Self::new()
    }
}

impl<N: GraphNode<N, P, W>, P, W> Graph<N, P, W> {
    /// A graph with the given nodes under the given ids and no edges, as
    /// saved graphs reload; the next inserted node gets `next_id`. `None`
    /// unless the ids ascend strictly and stay below `next_id`.
    pub fn restore(nodes: Vec<(u32, N)>, next_id: u32) -> (r: Option<Self>)
        ensures
            r is Some <==> (forall|i: int, j: int| 0 <= i < j < nodes@.len()
                ==> nodes@[i].0 < nodes@[j].0)
                && (forall|i: int| 0 <= i < nodes@.len() ==> nodes@[i].0 < next_id),
            r matches Some(g) ==> {
                &&& g.wf()
                &&& g.ids() == nodes@.map_values(|e: (u32, N)| e.0)
                &&& forall|i: int| 0 <= i < nodes@.len() ==> g.node_at(#[trigger] nodes@[i].0)
                    == nodes@[i].1
                &&& g.edge_seq() == Seq::<Edge>::empty()
                &&& g.wires() == Map::<WireKey, (u64, W)>::empty()
                &&& g.next_index() == next_id
            },
    {
        let mut i: usize = 0;
        while i < nodes.len()
            invariant
                i <= nodes@.len(),
                forall|a: int, b: int| 0 <= a < b < i ==> nodes@[a].0 < nodes@[b].0,
                forall|a: int| 0 <= a < i ==> nodes@[a].0 < next_id,
            decreases nodes@.len() - i,
        {
            if nodes[i].0 >= next_id || (i > 0 && nodes[i - 1].0 >= nodes[i].0) {
                return None;
            }
            i = i + 1;
        }
        let mut ports: Vec<NodePorts<P>> = Vec::new();
        let mut i: usize = 0;
        while i < nodes.len()
            invariant
                i <= nodes@.len(),
                ports@.len() == i,
            decreases nodes@.len() - i,
        {
            ports.push((nodes[i].1.inputs(), nodes[i].1.outputs()));
            i = i + 1;
        }
        let ghost given = nodes@;
        let g = Graph { nodes, ports, edges: Vec::new(), wire_data: WireStore::new(), next_id };
        proof {
            assert(g.wf());
            assert forall|i: int| 0 <= i < given.len() implies g.node_at(#[trigger] given[i].0)
                == given[i].1 by {
                g.lemma_pos(i);
            }
        }
        Some(g)
    }

    /// Adds a node and returns its id: the next one in sequence, never used
    /// before in this graph.
    pub fn node(&mut self, node: N) -> (id: u32)
        requires
            old(self).wf(),
            old(self).next_index() < u32::MAX,
        ensures
            final(self).wf(),
            id == old(self).next_index(),
            !old(self).has_node(id),
            final(self).ids() == old(self).ids().push(id),
            final(self).has_node(id),
            final(self).node_at(id) == node,
            forall|n: u32| #[trigger]
                old(self).has_node(n) ==> final(self).node_at(n) == old(self).node_at(n)
                    && final(self).input_ports(n) == old(self).input_ports(n)
                    && final(self).output_ports(n) == old(self).output_ports(n),
            final(self).edge_seq() == old(self).edge_seq(),
            final(self).wires() == old(self).wires(),
            final(self).fresh() == old(self).fresh(),
            final(self).next_index() == id + 1,
    {
        let id = self.next_id;
        let ghost before = *self;
        let ins = node.inputs();
        let outs = node.outputs();
        self.nodes.push((id, node));
        self.ports.push((ins, outs));
        self.next_id = id + 1;
        proof {
            assert forall|n: u32| self.has_node(n) <==> before.has_node(n) || n == id by {
                if before.has_node(n) {
                    let i = before.pos(n);
                    assert(self.nodes@[i] == before.nodes@[i]);
                }
                if self.has_node(n) && n != id {
                    let i = self.pos(n);
                    assert(self.nodes@[i] == before.nodes@[i]);
                }
                if n == id {
                    assert(self.nodes@[before.nodes@.len() as int].0 == id);
                }
            }
            assert(self.wf());
            assert(!before.has_node(id)) by {
                if before.has_node(id) {
                    let i = before.pos(id);
                }
            }
            assert(self.ids() =~= before.ids().push(id));
            self.lemma_pos(before.nodes@.len() as int);
            assert forall|n: u32| #[trigger] before.has_node(n) implies self.node_at(n)
                == before.node_at(n) by {
                let i = before.pos(n);
                before.lemma_pos(i);
                self.lemma_pos(i);
            }
        }
        id
    }

    /// Replaces the state of node `nx` and records the ports it now
    /// declares. Edges that end at a port of `nx` which the new state no
    /// longer declares are dropped.
    pub fn set_node_data(&mut self, nx: u32, value: N)
        requires
            old(self).wf(),
            old(self).has_node(nx),
        ensures
            final(self).wf(),
            final(self).ids() == old(self).ids(),
            final(self).node_at(nx) == value,
            forall|n: u32| #[trigger]
                old(self).has_node(n) && n != nx ==> final(self).node_at(n) == old(self).node_at(n)
                    && final(self).input_ports(n) == old(self).input_ports(n)
                    && final(self).output_ports(n) == old(self).output_ports(n),
            final(self).edge_seq() == old(self).edge_seq().filter(final(self).fits_ports(nx)),
            final(self).wires() == old(self).wires(),
            final(self).fresh() == old(self).fresh(),
            final(self).next_index() == old(self).next_index(),
    {
        let i = self.find_node(nx).unwrap();
        let ghost before = *self;
        let ins = value.inputs();
        let outs = value.outputs();
        self.nodes.set(i, (nx, value));
        self.ports.set(i, (ins, outs));
        proof {
            assert forall|n: u32| self.has_node(n) <==> before.has_node(n) by {
                if before.has_node(n) {
                    let j = before.pos(n);
                    assert(self.nodes@[j].0 == n);
                }
                if self.has_node(n) {
                    let j = self.pos(n);
                    assert(before.nodes@[j].0 == n);
                }
            }
            assert(self.wf());
            assert(self.ids() =~= before.ids());
            self.lemma_pos(i as int);
            assert forall|n: u32| #[trigger] before.has_node(n) && n != nx implies self.node_at(n)
                == before.node_at(n) && self.input_ports(n) == before.input_ports(n)
                && self.output_ports(n) == before.output_ports(n) by {
                let j = before.pos(n);
                before.lemma_pos(j);
                self.lemma_pos(j);
            }
        }
        let ghost mid = *self;
        let ghost fit = self.fits_ports(nx);
        let mut kept: Vec<Edge> = Vec::new();
        let mut k: usize = 0;
        while k < self.edges.len()
            invariant
                *self == mid,
                mid.wf(),
                i < self.nodes@.len(),
                self.pos(nx) == i,
                fit == self.fits_ports(nx),
                k <= self.edges@.len(),
                kept@ == self.edges@.subrange(0, k as int).filter(fit),
            decreases self.edges@.len() - k,
        {
            let e = &self.edges[k];
            proof {
                assert(self.edges@.subrange(0, k + 1) =~= self.edges@.subrange(0, k as int).push(
                    *e,
                ));
                self.edges@.subrange(0, k as int).lemma_filter_push(*e, fit);
            }
            let out_ok = e.0.node != nx || find_port(&self.ports[i].1, &e.0.name).is_some();
            let in_ok = e.1.node != nx || find_port(&self.ports[i].0, &e.1.name).is_some();
            if out_ok && in_ok {
                kept.push((e.0.clone(), e.1.clone()));
            }
            k = k + 1;
        }
        assert(self.edges@.subrange(0, self.edges@.len() as int) =~= self.edges@);
        self.edges = kept;
        proof {
            let f = mid.edges@.filter(fit);
            self.lemma_same_nodes(&mid);
            assert forall|k: int| 0 <= k < self.edges@.len() implies {
                &&& self.edges@[k].0.io == IO::Out
                &&& self.edges@[k].1.io == IO::In
                &&& self.has_node(self.edges@[k].0.node)
                &&& self.has_node(self.edges@[k].1.node)
            } by {
                assert(f.contains(f[k]));
                mid.edges@.lemma_filter_contains_rev(fit, f[k]);
                let m = choose|m: int| 0 <= m < mid.edges@.len() && mid.edges@[m] == f[k];
            }
            assert(self.wf());
            assert(self.fits_ports(nx) == fit);
        }
    }
}

} // verus!
