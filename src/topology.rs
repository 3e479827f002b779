use vstd::prelude::*;

use crate::error::GraphError;
use crate::graph::{declares, is_first_port, port_seq, type_of_port, Edge, Graph, GraphNode};
use crate::port::{PortCompat, PortRef, IO};

verus! {

/// Keeps the edges that touch neither end at node `id`.
pub open spec fn avoiding(id: u32) -> spec_fn(Edge) -> bool {
    |e: Edge| e.0.node != id && e.1.node != id
}

/// Keeps the edges that touch neither end at port `p`.
pub open spec fn not_at(p: PortRef) -> spec_fn(Edge) -> bool {
    |e: Edge| !e.0.same(p) && !e.1.same(p)
}

/// Keeps the edges that end at node `nx`.
pub open spec fn into_node(nx: u32) -> spec_fn(Edge) -> bool {
    |e: Edge| e.1.node == nx
}

/// Keeps the edges that start at node `nx`.
pub open spec fn from_node(nx: u32) -> spec_fn(Edge) -> bool {
    |e: Edge| e.0.node == nx
}

/// Position of the first port called `name`, or `None` when no port is.
pub fn find_port<P>(ports: &Vec<(String, P)>, name: &String) -> (r: Option<usize>)
    ensures
        match r {
            Some(i) => is_first_port(port_seq(ports@), name@, i as int),
            None => !declares(port_seq(ports@), name@),
        },
{
    let ghost ps = port_seq(ports@);
    let mut i: usize = 0;
    while i < ports.len()
        invariant
            ps == port_seq(ports@),
            i <= ports@.len(),
            forall|j: int| 0 <= j < i ==> ps[j].0 != name@,
        decreases ports@.len() - i,
    {
        if ports[i].0 == *name {
            return Some(i);
        }
        i = i + 1;
    }
    None
}

/// The first port called `name` is unique, and its type is the one that
/// `type_of_port` gives.
pub proof fn lemma_first_port<P>(ports: Seq<(Seq<char>, P)>, name: Seq<char>, i: int)
    requires
        is_first_port(ports, name, i),
    ensures
        type_of_port(ports, name) == ports[i].1,
        declares(ports, name),
{
    let j = choose|j: int| is_first_port(ports, name, j);
    if j < i {
        assert(ports[j].0 != name);
    } else if i < j {
        assert(ports[i].0 != name);
    }
}

impl<N, P, W> Graph<N, P, W> {
    /// `k` is the first edge into input `name` of node `nx`.
    pub open(crate) spec fn is_first_edge_into(&self, nx: u32, name: Seq<char>, k: int) -> bool {
        &&& 0 <= k < self.edges@.len()
        &&& self.edges@[k].1.node == nx
        &&& self.edges@[k].1.name@ == name
        &&& forall|j: int|
            0 <= j < k ==> !(self.edges@[j].1.node == nx && self.edges@[j].1.name@ == name)
    }

    /// The output port that feeds input `name` of node `nx`: the source of
    /// the first edge into it (an earlier connection takes precedence).
    pub open(crate) spec fn parent(&self, nx: u32, name: Seq<char>) -> Option<PortRef> {
        if exists|k: int| self.is_first_edge_into(nx, name, k) {
            Some(self.edges@[choose|k: int| self.is_first_edge_into(nx, name, k)].0)
        } else {
            None
        }
    }

    /// Keeps the nodes that no edge ends at.
    pub open(crate) spec fn root_pred(&self) -> spec_fn(u32) -> bool {
        |n: u32| !self.has_incoming(n)
    }

    /// Removes node `id` and every edge that touches it. Stored values stay.
    pub fn delete_node(&mut self, id: u32)
        requires
            old(self).wf(),
        ensures
            final(self).wf(),
            forall|n: u32| final(self).has_node(n) <==> old(self).has_node(n) && n != id,
            forall|n: u32| #[trigger]
                final(self).has_node(n) ==> final(self).node_at(n) == old(self).node_at(n)
                    && final(self).input_ports(n) == old(self).input_ports(n)
                    && final(self).output_ports(n) == old(self).output_ports(n),
            final(self).edge_seq() == old(self).edge_seq().filter(avoiding(id)),
            final(self).wires() == old(self).wires(),
            final(self).fresh() == old(self).fresh(),
            final(self).next_index() == old(self).next_index(),
    {
        let ghost before = *self;
        if let Some(i) = self.find_node(id) {
            self.nodes.remove(i);
            self.ports.remove(i);
        }
        let mut kept: Vec<Edge> = Vec::new();
        let mut k: usize = 0;
        while k < self.edges.len()
            invariant
                k <= self.edges@.len(),
                kept@ == self.edges@.subrange(0, k as int).filter(avoiding(id)),
            decreases self.edges@.len() - k,
        {
            let e = &self.edges[k];
            proof {
                assert(self.edges@.subrange(0, k + 1) =~= self.edges@.subrange(0, k as int).push(
                    *e,
                ));
                self.edges@.subrange(0, k as int).lemma_filter_push(*e, avoiding(id));
            }
            if e.0.node != id && e.1.node != id {
                kept.push((e.0.clone(), e.1.clone()));
            }
            k = k + 1;
        }
        assert(self.edges@.subrange(0, self.edges@.len() as int) =~= self.edges@);
        self.edges = kept;
        proof {
            assert forall|n: u32| self.has_node(n) <==> before.has_node(n) && n != id by {
                if before.has_node(n) && n != id {
                    let j = before.pos(n);
                    before.lemma_pos(j);
                    if before.has_node(id) {
                        let i = before.pos(id);
                        if j < i {
                            assert(self.nodes@[j] == before.nodes@[j]);
                        } else {
                            assert(self.nodes@[j - 1] == before.nodes@[j]);
                        }
                    } else {
                        assert(self.nodes@[j] == before.nodes@[j]);
                    }
                }
                if self.has_node(n) {
                    let j = self.pos(n);
                    if before.has_node(id) {
                        let i = before.pos(id);
                        before.lemma_pos(i);
                        if j < i {
                            assert(before.nodes@[j] == self.nodes@[j]);
                        } else {
                            assert(before.nodes@[j + 1] == self.nodes@[j]);
                        }
                    } else {
                        assert(before.nodes@[j] == self.nodes@[j]);
                    }
                }
            }
            let f = before.edges@.filter(avoiding(id));
            assert forall|k: int| 0 <= k < self.edges@.len() implies {
                &&& self.edges@[k].0.io == IO::Out
                &&& self.edges@[k].1.io == IO::In
                &&& self.has_node(self.edges@[k].0.node)
                &&& self.has_node(self.edges@[k].1.node)
            } by {
                assert(f.contains(f[k]));
                before.edges@.lemma_filter_contains_rev(avoiding(id), f[k]);
                let m = choose|m: int| 0 <= m < before.edges@.len() && before.edges@[m] == f[k];
            }
            assert(self.wf());
            assert forall|n: u32| #[trigger] self.has_node(n) implies self.node_at(n)
                == before.node_at(n) && self.input_ports(n) == before.input_ports(n)
                && self.output_ports(n) == before.output_ports(n) by {
                let j = self.pos(n);
                self.lemma_pos(j);
                let m = before.pos(n);
                before.lemma_pos(m);
                if before.has_node(id) {
                    let i = before.pos(id);
                    before.lemma_pos(i);
                    if j < i {
                        assert(before.nodes@[j] == self.nodes@[j]);
                        assert(before.ports@[j] == self.ports@[j]);
                    } else {
                        assert(before.nodes@[j + 1] == self.nodes@[j]);
                        assert(before.ports@[j + 1] == self.ports@[j]);
                    }
                } else {
                    assert(before.nodes@[j] == self.nodes@[j]);
                    assert(before.ports@[j] == self.ports@[j]);
                }
            }
        }
    }

    /// The edges that end at node `nx`, in the order they were made.
    pub fn incoming_edges(&self, nx: &u32) -> (r: Vec<Edge>)
        ensures
            r@ == self.edge_seq().filter(into_node(*nx)),
    {
        let mut r: Vec<Edge> = Vec::new();
        let mut k: usize = 0;
        while k < self.edges.len()
            invariant
                k <= self.edges@.len(),
                r@ == self.edges@.subrange(0, k as int).filter(into_node(*nx)),
            decreases self.edges@.len() - k,
        {
            let e = &self.edges[k];
            proof {
                assert(self.edges@.subrange(0, k + 1) =~= self.edges@.subrange(0, k as int).push(
                    *e,
                ));
                self.edges@.subrange(0, k as int).lemma_filter_push(*e, into_node(*nx));
            }
            if e.1.node == *nx {
                r.push((e.0.clone(), e.1.clone()));
            }
            k = k + 1;
        }
        assert(self.edges@.subrange(0, self.edges@.len() as int) =~= self.edges@);
        r
    }

    /// The destination ports of the edges that start at node `nx`, in the
    /// order the edges were made.
    pub fn outgoing_edges(&self, nx: &u32) -> (r: Vec<PortRef>)
        ensures
            r@.len() == self.edge_seq().filter(from_node(*nx)).len(),
            forall|i: int|
                0 <= i < r@.len() ==> r@[i]
                    == #[trigger] self.edge_seq().filter(from_node(*nx))[i].1,
    {
        let mut r: Vec<PortRef> = Vec::new();
        let mut k: usize = 0;
        while k < self.edges.len()
            invariant
                k <= self.edges@.len(),
                r@.len() == self.edges@.subrange(0, k as int).filter(from_node(*nx)).len(),
                forall|i: int|
                    0 <= i < r@.len() ==> r@[i] == #[trigger] self.edges@.subrange(
                        0,
                        k as int,
                    ).filter(from_node(*nx))[i].1,
            decreases self.edges@.len() - k,
        {
            let e = &self.edges[k];
            proof {
                assert(self.edges@.subrange(0, k + 1) =~= self.edges@.subrange(0, k as int).push(
                    *e,
                ));
                self.edges@.subrange(0, k as int).lemma_filter_push(*e, from_node(*nx));
            }
            if e.0.node == *nx {
                r.push(e.1.clone());
            }
            k = k + 1;
        }
        assert(self.edges@.subrange(0, self.edges@.len() as int) =~= self.edges@);
        r
    }

    /// Whether some edge ends at node `nx`.
    fn incoming_exists(&self, nx: u32) -> (r: bool)
        ensures
            r == self.has_incoming(nx),
    {
        let mut k: usize = 0;
        while k < self.edges.len()
            invariant
                k <= self.edges@.len(),
                forall|j: int| 0 <= j < k ==> self.edges@[j].1.node != nx,
            decreases self.edges@.len() - k,
        {
            if self.edges[k].1.node == nx {
                return true;
            }
            k = k + 1;
        }
        false
    }

    /// The nodes that no edge ends at, in id order.
    pub fn get_roots(&self) -> (r: Vec<u32>)
        ensures
            r@ == self.ids().filter(self.root_pred()),
    {
        let mut r: Vec<u32> = Vec::new();
        let mut i: usize = 0;
        while i < self.nodes.len()
            invariant
                i <= self.nodes@.len(),
                r@ == self.ids().subrange(0, i as int).filter(self.root_pred()),
            decreases self.nodes@.len() - i,
        {
            let n = self.nodes[i].0;
            proof {
                assert(self.ids().subrange(0, i + 1) =~= self.ids().subrange(0, i as int).push(n));
                self.ids().subrange(0, i as int).lemma_filter_push(n, self.root_pred());
            }
            if !self.incoming_exists(n) {
                r.push(n);
            }
            i = i + 1;
        }
        assert(self.ids().subrange(0, self.ids().len() as int) =~= self.ids());
        r
    }

    /// The output port that feeds input `in_port` of node `nx`: the source of
    /// the earliest edge into it.
    pub fn get_parent(&self, nx: &u32, in_port: &str) -> (r: Option<PortRef>)
        ensures
            r == self.parent(*nx, in_port@),
    {
        let name = in_port.to_owned();
        let mut k: usize = 0;
        while k < self.edges.len()
            invariant
                k <= self.edges@.len(),
                name@ == in_port@,
                forall|j: int|
                    0 <= j < k ==> !(self.edges@[j].1.node == *nx && self.edges@[j].1.name@
                        == in_port@),
            decreases self.edges@.len() - k,
        {
            if self.edges[k].1.node == *nx && self.edges[k].1.name == name {
                proof {
                    assert(self.is_first_edge_into(*nx, in_port@, k as int));
                    let c = choose|c: int| self.is_first_edge_into(*nx, in_port@, c);
                    if c < k {
                    } else if k < c {
                        assert(self.edges@[k as int].1.node == *nx);
                    }
                }
                return Some(self.edges[k].0.clone());
            }
            k = k + 1;
        }
        None
    }
}

/// `e` runs from output `from.1` of node `from.0` to input `to.1` of node
/// `to.0`.
pub open spec fn edge_is(e: Edge, from: (u32, Seq<char>), to: (u32, Seq<char>)) -> bool {
    &&& e.0.node == from.0
    &&& e.0.name@ == from.1
    &&& e.0.io == IO::Out
    &&& e.1.node == to.0
    &&& e.1.name@ == to.1
    &&& e.1.io == IO::In
}

impl<N: GraphNode<N, P, W>, P: PortCompat, W> Graph<N, P, W> {
    /// The ports that node `node` declares in direction `io`.
    pub open(crate) spec fn ports_at(&self, node: u32, io: IO) -> Seq<(Seq<char>, P)> {
        if io == IO::Out {
            self.output_ports(node)
        } else {
            self.input_ports(node)
        }
    }

    /// Node `node` is in the graph and declares a port `name` in direction
    /// `io`.
    pub open(crate) spec fn port_declared(&self, node: u32, name: Seq<char>, io: IO) -> bool {
        self.has_node(node) && declares(self.ports_at(node, io), name)
    }

    /// The declared type of that port.
    pub open(crate) spec fn type_at(&self, node: u32, name: Seq<char>, io: IO) -> P {
        type_of_port(self.ports_at(node, io), name)
    }

    /// What connecting output `from` to input `to` gives: `InvalidPort` when
    /// either port is not declared, `IncompatiblePorts` when the types do not
    /// fit, and success otherwise.
    pub open(crate) spec fn connect_outcome(&self, from: (u32, Seq<char>), to: (u32,
        Seq<char>)) -> Result<(), GraphError> {
        if !(self.port_declared(from.0, from.1, IO::Out) && self.port_declared(to.0, to.1,
            IO::In)) {
            Err(GraphError::InvalidPort)
        } else if !self.type_at(from.0, from.1, IO::Out).compatible(&self.type_at(to.0, to.1,
            IO::In)) {
            Err(GraphError::IncompatiblePorts)
        } else {
            Ok(())
        }
    }

    /// Only the edge list of the two graphs may differ.
    pub open(crate) spec fn same_but_edges(&self, other: &Self) -> bool {
        &&& self.nodes == other.nodes
        &&& self.ports == other.ports
        &&& self.wire_data == other.wire_data
        &&& self.next_id == other.next_id
    }

    /// Position of `port` among the ports of its direction that its node
    /// declares (the first one, should a name repeat).
    pub fn port_index(&self, port: &PortRef) -> (r: usize)
        requires
            self.wf(),
            self.port_declared(port.node, port.name@, port.io),
        ensures
            is_first_port(self.ports_at(port.node, port.io), port.name@, r as int),
    {
        let i = self.find_node(port.node).unwrap();
        let ports = match port.io {
            IO::In => &self.ports[i].0,
            IO::Out => &self.ports[i].1,
        };
        match find_port(ports, &port.name) {
            Some(i) => i,
            None => {
                proof {
                    assert(false);
                }
                0
            },
        }
    }

    /// Checks that `from` and `to` can be wired, then appends the edge; on
    /// an error the graph is left as it was. An input may be fed by several
    /// edges: the earliest one takes precedence (see `get_parent`).
    pub fn add_edge_from_ref(&mut self, from: &PortRef, to: &PortRef) -> (r: Result<(), GraphError>)
        requires
            old(self).wf(),
        ensures
            final(self).wf(),
            r == if from.io != IO::Out || to.io != IO::In {
                Err(GraphError::InvalidPort)
            } else {
                old(self).connect_outcome((from.node, from.name@), (to.node, to.name@))
            },
            r is Ok ==> final(self).edge_seq() == old(self).edge_seq().push((*from, *to)),
            r is Ok ==> final(self).same_but_edges(old(self)),
            r is Err ==> *final(self) == *old(self),
    {
        if from.io != IO::Out || to.io != IO::In {
            return Err(GraphError::InvalidPort);
        }
        let fi = match self.find_node(from.node) {
            Some(i) => i,
            None => {
                return Err(GraphError::InvalidPort);
            },
        };
        let ti = match self.find_node(to.node) {
            Some(i) => i,
            None => {
                return Err(GraphError::InvalidPort);
            },
        };
        proof {
            self.lemma_pos(fi as int);
            self.lemma_pos(ti as int);
        }
        let outs = &self.ports[fi].1;
        let ins = &self.ports[ti].0;
        let a = match find_port(outs, &from.name) {
            Some(a) => a,
            None => {
                return Err(GraphError::InvalidPort);
            },
        };
        let b = match find_port(ins, &to.name) {
            Some(b) => b,
            None => {
                return Err(GraphError::InvalidPort);
            },
        };
        proof {
            lemma_first_port(port_seq(outs@), from.name@, a as int);
            lemma_first_port(port_seq(ins@), to.name@, b as int);
        }
        if !outs[a].1.can_connect(&ins[b].1) {
            return Err(GraphError::IncompatiblePorts);
        }
        let ghost before = *self;
        self.edges.push((from.clone(), to.clone()));
        proof {
            assert(self.nodes@ == before.nodes@);
            assert forall|n: u32| self.has_node(n) == before.has_node(n) by {
                if before.has_node(n) {
                    let i = before.pos(n);
                    assert(self.nodes@[i].0 == n);
                }
            }
        }
        Ok(())
    }

    /// Connects output `from.1` of node `from.0` to input `to.1` of node
    /// `to.0`, under the rules of `add_edge_from_ref`.
    pub fn connect(&mut self, from: (u32, &str), to: (u32, &str)) -> (r: Result<(), GraphError>)
        requires
            old(self).wf(),
        ensures
            final(self).wf(),
            r == old(self).connect_outcome((from.0, from.1@), (to.0, to.1@)),
            r is Ok ==> final(self).edge_seq().len() == old(self).edge_seq().len() + 1,
            r is Ok ==> final(self).edge_seq().drop_last() == old(self).edge_seq(),
            r is Ok ==> edge_is(final(self).edge_seq().last(), (from.0, from.1@), (to.0, to.1@)),
            r is Ok ==> final(self).same_but_edges(old(self)),
            r is Err ==> *final(self) == *old(self),
    {
        let f = PortRef::new(from.0, from.1, IO::Out);
        let t = PortRef::new(to.0, to.1, IO::In);
        let r = self.add_edge_from_ref(&f, &t);
        proof {
            if r is Ok {
                assert(self.edge_seq().drop_last() =~= old(self).edge_seq());
            }
        }
        r
    }

    /// Removes every edge with `port` at either end. `InvalidPort`, with the
    /// graph left as it was, when no node declares that port.
    pub fn remove_edge(&mut self, port: &PortRef) -> (r: Result<(), GraphError>)
        requires
            old(self).wf(),
        ensures
            final(self).wf(),
            r is Err <==> !old(self).port_declared(port.node, port.name@, port.io),
            r is Err ==> r == Err::<(), GraphError>(GraphError::InvalidPort) && *final(self)
                == *old(self),
            r is Ok ==> final(self).edge_seq() == old(self).edge_seq().filter(not_at(*port)),
            r is Ok ==> final(self).same_but_edges(old(self)),
    {
        let ni = match self.find_node(port.node) {
            Some(i) => i,
            None => {
                return Err(GraphError::InvalidPort);
            },
        };
        proof {
            self.lemma_pos(ni as int);
        }
        let ports = match port.io {
            IO::In => &self.ports[ni].0,
            IO::Out => &self.ports[ni].1,
        };
        if find_port(ports, &port.name).is_none() {
            return Err(GraphError::InvalidPort);
        }
        let ghost before = *self;
        let mut kept: Vec<Edge> = Vec::new();
        let mut k: usize = 0;
        while k < self.edges.len()
            invariant
                k <= self.edges@.len(),
                kept@ == self.edges@.subrange(0, k as int).filter(not_at(*port)),
            decreases self.edges@.len() - k,
        {
            let e = &self.edges[k];
            proof {
                assert(self.edges@.subrange(0, k + 1) =~= self.edges@.subrange(0, k as int).push(
                    *e,
                ));
                self.edges@.subrange(0, k as int).lemma_filter_push(*e, not_at(*port));
            }
            if e.0 != *port && e.1 != *port {
                kept.push((e.0.clone(), e.1.clone()));
            }
            k = k + 1;
        }
        assert(self.edges@.subrange(0, self.edges@.len() as int) =~= self.edges@);
        self.edges = kept;
        proof {
            let f = before.edges@.filter(not_at(*port));
            assert(self.nodes@ == before.nodes@);
            assert forall|n: u32| self.has_node(n) == before.has_node(n) by {
                if before.has_node(n) {
                    let i = before.pos(n);
                    assert(self.nodes@[i].0 == n);
                }
            }
            assert forall|k: int| 0 <= k < self.edges@.len() implies {
                &&& self.edges@[k].0.io == IO::Out
                &&& self.edges@[k].1.io == IO::In
                &&& self.has_node(self.edges@[k].0.node)
                &&& self.has_node(self.edges@[k].1.node)
            } by {
                assert(f.contains(f[k]));
                before.edges@.lemma_filter_contains_rev(not_at(*port), f[k]);
                let m = choose|m: int| 0 <= m < before.edges@.len() && before.edges@[m] == f[k];
            }
        }
        Ok(())
    }
}

} // verus!
