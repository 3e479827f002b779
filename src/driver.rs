use itertools::Itertools;
use vstd::prelude::*;

use crate::error::{GraphError, NodeError};
use crate::graph::{Graph, GraphNode};
use crate::wire::{Wire, WireKey};

verus! {

/// The store after the outputs `outs` of node `nx` were put in it one after
/// another, the first with stamp `stamp` and each next one with the next
/// stamp. A name that repeats keeps its last value.
pub open spec fn stored_after<W>(
    m: Map<WireKey, (u64, W)>,
    nx: u32,
    outs: Seq<(String, W)>,
    stamp: int,
) -> Map<WireKey, (u64, W)>
    decreases outs.len(),
{
    if outs.len() == 0 {
        m
    } else {
        stored_after(
            m.insert((nx, outs[0].0@), (stamp as u64, outs[0].1)),
            nx,
            outs.drop_first(),
            stamp + 1,
        )
    }
}

/// Pair `a` comes before pair `b` in lexicographic order.
pub open spec fn lex_less(a: (usize, usize), b: (usize, usize)) -> bool {
    a.0 < b.0 || (a.0 == b.0 && a.1 < b.1)
}

/// Pair `(i, j)` occurs in `r`.
pub open spec fn lists_pair(r: Seq<(usize, usize)>, i: usize, j: usize) -> bool {
    exists|t: int| 0 <= t < r.len() && r[t] == (i, j)
}

/// Relies on `itertools::Itertools::combinations`: the 2-combinations of
/// the positions `0..n`, that is every pair `(i, j)` with `i < j < n`, once
/// each and in lexicographic order.
#[verifier::external_body]
fn index_pairs(n: usize) -> (r: Vec<(usize, usize)>)
    ensures
        forall|t: int| 0 <= t < r@.len() ==> (#[trigger] r@[t]).0 < r@[t].1 < n,
        forall|t: int, u: int| 0 <= t < u < r@.len() ==> lex_less(r@[t], r@[u]),
        forall|i: usize, j: usize| i < j < n ==> #[trigger] lists_pair(r@, i, j),
{
    (0..n).combinations(2).map(|v| (v[0], v[1])).collect()
}

/// For each position `k` of `v`, the first position whose handle reads the
/// same instance as the handle at `k`.
#[verifier::rlimit(40)]
fn first_aliases<W>(v: &Vec<(String, Wire<W>)>) -> (rep: Vec<usize>)
    ensures
        rep@.len() == v@.len(),
        forall|k: int|
            0 <= k < v@.len() ==> {
                &&& #[trigger] rep@[k] <= k
                &&& v@[rep@[k] as int].1.id() == v@[k].1.id()
                &&& forall|l: int| 0 <= l < rep@[k] ==> v@[l].1.id() != v@[k].1.id()
            },
{
    let n = v.len();
    let mut rep: Vec<usize> = Vec::new();
    let mut k: usize = 0;
    while k < n
        invariant
            n == v@.len(),
            k <= n,
            rep@.len() == k,
            forall|j: int| 0 <= j < k ==> rep@[j] == j,
        decreases n - k,
    {
        rep.push(k);
        k = k + 1;
    }
    let pairs = index_pairs(n);
    let mut t: usize = 0;
    while t < pairs.len()
        invariant
            n == v@.len(),
            rep@.len() == n,
            t <= pairs@.len(),
            forall|s: int| 0 <= s < pairs@.len() ==> (#[trigger] pairs@[s]).0 < pairs@[s].1 < n,
            forall|s: int, u: int| 0 <= s < u < pairs@.len() ==> lex_less(pairs@[s], pairs@[u]),
            forall|i: usize, j: usize| i < j < n ==> #[trigger] lists_pair(pairs@, i, j),
            forall|j: int| 0 <= j < n ==> #[trigger] rep@[j] <= j,
            forall|j: int|
                0 <= j < n && #[trigger] rep@[j] < j ==> v@[rep@[j] as int].1.id() == v@[j].1.id()
                    && forall|l: int| 0 <= l < rep@[j] ==> v@[l].1.id() != v@[j].1.id(),
            forall|s: int|
                0 <= s < t && rep@[pairs@[s].1 as int] == pairs@[s].1
                    ==> v@[pairs@[s].0 as int].1.id()
                    != v@[#[trigger] pairs@[s].1 as int].1.id(),
        decreases pairs@.len() - t,
    {
        let (i, j) = pairs[t];
        if rep[j] == j && v[i].1.alias_of(&v[j].1) {
            proof {
                assert forall|l: int| 0 <= l < i implies v@[l].1.id() != v@[j as int].1.id() by {
                    assert(lists_pair(pairs@, l as usize, j));
                    let u = choose|u: int| 0 <= u < pairs@.len() && pairs@[u] == (l as usize, j);
                    if u >= t {
                        if u > t {
                            assert(lex_less(pairs@[t as int], pairs@[u]));
                        }
                    }
                    assert(u < t);
                }
            }
            let ghost before = rep@;
            rep.set(j, i);
            proof {
                assert forall|s: int|
                    0 <= s < t + 1 && rep@[pairs@[s].1 as int] == pairs@[s].1
                        implies v@[pairs@[s].0 as int].1.id()
                        != v@[#[trigger] pairs@[s].1 as int].1.id() by {
                    if pairs@[s].1 != j {
                        assert(before[pairs@[s].1 as int] == rep@[pairs@[s].1 as int]);
                    }
                }
            }
        }
        t = t + 1;
    }
    proof {
        assert forall|k: int| 0 <= k < v@.len()
            implies forall|l: int| 0 <= l < #[trigger] rep@[k] ==> v@[l].1.id() != v@[k].1.id() by {
            if rep@[k] == k {
                assert forall|l: int| 0 <= l < rep@[k] implies v@[l].1.id() != v@[k].1.id() by {
                    assert(lists_pair(pairs@, l as usize, k as usize));
                    let s = choose|s: int| 0 <= s < pairs@.len() && pairs@[s] == (l as usize,
                        k as usize);
                }
            }
        }
    }
    rep
}

/// A result of a node's computation, paired with the node's id.
pub type ComputeResult<N, W> = (u32, Result<(Vec<(String, W)>, N), NodeError>);

impl<N, P, W> Graph<N, P, W> {
    /// Stores the outputs of node `nx`, each under its port name and with a
    /// fresh stamp, replacing earlier values.
    pub fn update_wire_data(&mut self, nx: u32, outputs: Vec<(String, W)>)
        requires
            old(self).wf(),
            old(self).fresh() + outputs@.len() <= u64::MAX,
        ensures
            final(self).wf(),
            final(self).wires() == stored_after(old(self).wires(), nx, outputs@,
                old(self).fresh() as int),
            final(self).fresh() == old(self).fresh() + outputs@.len(),
            final(self).same_but_wires(old(self)),
    {
        let ghost target = stored_after(self.wires(), nx, outputs@, self.fresh() as int);
        let ghost start = self.fresh();
        let mut outs = outputs;
        while outs.len() > 0
            invariant
                self.wf(),
                self.fresh() + outs@.len() <= u64::MAX,
                self.fresh() + outs@.len() == start + outputs@.len(),
                stored_after(self.wires(), nx, outs@, self.fresh() as int) == target,
                self.same_but_wires(old(self)),
            decreases outs@.len(),
        {
            let ghost before = outs@;
            let (name, value) = outs.remove(0);
            assert(outs@ =~= before.drop_first());
            self.wire_data.put(nx, name.as_str(), value);
            proof {
                self.lemma_same_nodes(old(self));
            }
        }
    }
}

impl<N, P, W> Graph<N, P, W> {
    /// Drops every stored value; stamps keep counting.
    pub fn clear_wire_data(&mut self)
        requires
            old(self).wf(),
        ensures
            final(self).wf(),
            final(self).wires() == Map::<WireKey, (u64, W)>::empty(),
            final(self).fresh() == old(self).fresh(),
            final(self).same_but_wires(old(self)),
    {
        self.wire_data.clear();
        proof {
            self.lemma_same_nodes(old(self));
        }
    }

    /// Drops the values stored for the outputs of node `nx`.
    pub fn remove_wire_data(&mut self, nx: u32)
        requires
            old(self).wf(),
        ensures
            final(self).wf(),
            forall|k: WireKey| #[trigger]
                final(self).wires().contains_key(k) <==> old(self).wires().contains_key(k)
                    && k.0 != nx,
            forall|k: WireKey| #[trigger]
                final(self).wires().contains_key(k) ==> final(self).wires()[k]
                    == old(self).wires()[k],
            final(self).fresh() == old(self).fresh(),
            final(self).same_but_wires(old(self)),
    {
        self.wire_data.drop_node(nx);
        proof {
            self.lemma_same_nodes(old(self));
        }
    }
}

impl<N: GraphNode<N, P, W>, P, W> Graph<N, P, W> {
    /// Runs a node's computation on gathered inputs. This is the whole of a
    /// node's execution that touches no graph, so it can be handed to another
    /// task or thread.
    pub fn compute_node(nx: u32, node: N, input_guarded: Vec<(String,
        Wire<W>)>) -> (r: ComputeResult<N, W>)
        ensures
            r.0 == nx,
    {
        let output = node.compute(input_guarded);
        (nx, output)
    }

    /// The value that feeds input `name` of node `nx`: the one stored for
    /// the output port of its parent, if it has a parent and that value
    /// exists.
    pub open(crate) spec fn input_value(&self, nx: u32, name: Seq<char>) -> Option<(u64, W)> {
        match self.parent(nx, name) {
            Some(p) => if self.wires().contains_key((p.node, p.name@)) {
                Some(self.wires()[(p.node, p.name@)])
            } else {
                None
            },
            None => None,
        }
    }

    /// Inputs `a` and `b` of node `nx` are fed by one output port.
    pub open(crate) spec fn same_source(&self, nx: u32, a: Seq<char>, b: Seq<char>) -> bool {
        &&& self.parent(nx, a) is Some
        &&& self.parent(nx, b) is Some
        &&& (self.parent(nx, a)->0).node == (self.parent(nx, b)->0).node
        &&& (self.parent(nx, a)->0).name@ == (self.parent(nx, b)->0).name@
    }

    /// Every declared input of node `nx` has a value to read.
    pub open(crate) spec fn inputs_ready(&self, nx: u32) -> bool {
        forall|i: int|
            0 <= i < self.input_ports(nx).len() ==> (#[trigger] self.input_value(
                nx,
                self.input_ports(nx)[i].0,
            )) is Some
    }

    /// `v` holds, for each declared input of node `nx` in order, its name
    /// and a handle to the value that feeds it.
    pub open(crate) spec fn gathered(&self, nx: u32, v: Seq<(String, Wire<W>)>) -> bool {
        let ports = self.input_ports(nx);
        &&& v.len() == ports.len()
        &&& forall|i: int|
            0 <= i < v.len() ==> {
                &&& (#[trigger] v[i]).0@ == ports[i].0
                &&& self.input_value(nx, ports[i].0) == Some((v[i].1.id(), v[i].1.val()))
            }
    }

    /// For each declared output of node `nx`, in order, its name and a handle
    /// to its stored value, if there is one.
    pub fn get_output_data(&self, nx: u32) -> (r: Vec<(String, Option<Wire<W>>)>)
        requires
            self.wf(),
            self.has_node(nx),
        ensures
            r@.len() == self.output_ports(nx).len(),
            forall|i: int|
                0 <= i < r@.len() ==> {
                    let name = self.output_ports(nx)[i].0;
                    &&& (#[trigger] r@[i]).0@ == name
                    &&& match r@[i].1 {
                        Some(w) => self.wires().contains_key((nx, name)) && self.wires()[(nx, name)]
                            == (w.id(), w.val()),
                        None => !self.wires().contains_key((nx, name)),
                    }
                },
    {
        let i0 = self.find_node(nx).unwrap();
        let outs = &self.ports[i0].1;
        let mut r: Vec<(String, Option<Wire<W>>)> = Vec::new();
        let mut i: usize = 0;
        while i < outs.len()
            invariant
                self.wf(),
                crate::graph::port_seq(outs@) == self.output_ports(nx),
                i <= outs@.len(),
                r@.len() == i,
                forall|j: int|
                    0 <= j < i ==> {
                        let name = self.output_ports(nx)[j].0;
                        &&& (#[trigger] r@[j]).0@ == name
                        &&& match r@[j].1 {
                            Some(w) => self.wires().contains_key((nx, name)) && self.wires()[(
                            nx,
                            name,
                            )] == (w.id(), w.val()),
                            None => !self.wires().contains_key((nx, name)),
                        }
                    },
            decreases outs@.len() - i,
        {
            let name = outs[i].0.clone();
            let w = self.get_wire_data(&nx, name.as_str());
            r.push((name, w));
            i = i + 1;
        }
        r
    }

    /// For each declared input of node `nx`, in order, its name and a handle
    /// to the value that feeds it; `None` when some input has no parent or
    /// its parent has no value yet (the node is not ready to run).
    pub fn get_input_data(&self, nx: &u32) -> (r: Option<Vec<(String, Wire<W>)>>)
        requires
            self.wf(),
            self.has_node(*nx),
        ensures
            r is Some <==> self.inputs_ready(*nx),
            r matches Some(v) ==> self.gathered(*nx, v@),
            r matches Some(v) ==> forall|p: int, q: int|
                0 <= p < v@.len() && 0 <= q < v@.len() ==> ((#[trigger] v@[p].1.id()
                    == #[trigger] v@[q].1.id()) <==> self.same_source(
                    *nx,
                    self.input_ports(*nx)[p].0,
                    self.input_ports(*nx)[q].0,
                )),
    {
        let i0 = self.find_node(*nx).unwrap();
        let ins = &self.ports[i0].0;
        let ghost ports = self.input_ports(*nx);
        let mut r: Vec<(String, Wire<W>)> = Vec::new();
        let mut i: usize = 0;
        while i < ins.len()
            invariant
                self.wf(),
                ports == self.input_ports(*nx),
                crate::graph::port_seq(ins@) == ports,
                i <= ins@.len(),
                r@.len() == i,
                forall|j: int|
                    0 <= j < i ==> {
                        &&& (#[trigger] r@[j]).0@ == ports[j].0
                        &&& self.input_value(*nx, ports[j].0) == Some((r@[j].1.id(), r@[j].1.val()))
                    },
            decreases ins@.len() - i,
        {
            let name = ins[i].0.clone();
            assert(name@ == ports[i as int].0);
            let parent = self.get_parent(nx, name.as_str());
            match parent {
                None => {
                    assert(self.input_value(*nx, self.input_ports(*nx)[i as int].0) is None);
                    return None;
                },
                Some(p) => match self.wire_data.get(p.node, p.name.as_str()) {
                    None => {
                        assert(self.input_value(*nx, self.input_ports(*nx)[i as int].0) is None);
                        return None;
                    },
                    Some(w) => {
                        r.push((name, w));
                    },
                },
            }
            i = i + 1;
        }
        assert forall|j: int| 0 <= j < ports.len() implies (#[trigger] self.input_value(
            *nx,
            self.input_ports(*nx)[j].0,
        )) is Some by {
            assert(self.input_value(*nx, ports[j].0) == Some((r@[j].1.id(), r@[j].1.val())));
        }
        proof {
            assert forall|p: int, q: int| 0 <= p < r@.len() && 0 <= q < r@.len() implies ((
            #[trigger] r@[p].1.id() == #[trigger] r@[q].1.id()) <==> self.same_source(
                *nx,
                self.input_ports(*nx)[p].0,
                self.input_ports(*nx)[q].0,
            )) by {
                self.lemma_alias_iff_same_source(*nx, ports[p].0, *nx, ports[q].0);
            }
        }
        Some(r)
    }

    /// The stamp of the value that feeds the `k`-th declared input of node
    /// `nx`.
    pub open(crate) spec fn input_stamp(&self, nx: u32, k: int) -> u64 {
        (self.input_value(nx, self.input_ports(nx)[k].0)->0).0
    }

    /// Input `j` is the first of the declared inputs of node `nx` that reads
    /// the same instance as input `i`.
    pub open(crate) spec fn is_rep_of(&self, nx: u32, i: int, j: int) -> bool {
        &&& 0 <= j <= i
        &&& self.input_stamp(nx, j) == self.input_stamp(nx, i)
        &&& forall|l: int| 0 <= l < j ==> self.input_stamp(nx, l) != self.input_stamp(nx, i)
    }

    /// The inputs of node `nx` with shared producers folded together: for
    /// each declared input, in order, its name and the name of the first
    /// input that reads the same instance; and, in order, each input that is
    /// the first to read its instance, with a handle to it. `None` when the
    /// node is not ready.
    #[verifier::rlimit(40)]
    pub fn get_input_data_mapped(&self, nx: &u32) -> (r: Option<(Vec<(String, String)>,
        Vec<(String, Wire<W>)>)>)
        requires
            self.wf(),
            self.has_node(*nx),
        ensures
            r is Some <==> self.inputs_ready(*nx),
            r matches Some((m, d)) ==> {
                let ports = self.input_ports(*nx);
                &&& m@.len() == ports.len()
                &&& forall|i: int| 0 <= i < m@.len() ==> (#[trigger] m@[i]).0@ == ports[i].0
                    && exists|j: int|
                    self.is_rep_of(*nx, i, j) && m@[i].1@ == ports[j].0
                &&& exists|ix: Seq<int>| {
                    &&& ix.len() == d@.len()
                    &&& forall|t: int, u: int| 0 <= t < u < ix.len() ==> ix[t] < ix[u]
                    &&& forall|t: int| 0 <= t < ix.len() ==> {
                        &&& 0 <= #[trigger] ix[t] < ports.len()
                        &&& self.is_rep_of(*nx, ix[t], ix[t])
                        &&& d@[t].0@ == ports[ix[t]].0
                        &&& self.input_value(*nx, ports[ix[t]].0) == Some((d@[t].1.id(),
                            d@[t].1.val()))
                    }
                    &&& forall|i: int| 0 <= i < ports.len() && self.is_rep_of(*nx, i, i)
                        ==> exists|t: int| 0 <= t < ix.len() && ix[t] == i
                }
            },
    {
        let v = match self.get_input_data(nx) {
            Some(v) => v,
            None => {
                return None;
            },
        };
        let ghost ports = self.input_ports(*nx);
        let mut m: Vec<(String, String)> = Vec::new();
        let mut d: Vec<(String, Wire<W>)> = Vec::new();
        let ghost mut ix: Seq<int> = Seq::empty();
        let rep = first_aliases(&v);
        let mut i: usize = 0;
        while i < v.len()
            invariant
                rep@.len() == v@.len(),
                forall|k: int|
                    0 <= k < v@.len() ==> {
                        &&& #[trigger] rep@[k] <= k
                        &&& v@[rep@[k] as int].1.id() == v@[k].1.id()
                        &&& forall|l: int| 0 <= l < rep@[k] ==> v@[l].1.id() != v@[k].1.id()
                    },
                self.gathered(*nx, v@),
                ports == self.input_ports(*nx),
                i <= v@.len(),
                m@.len() == i,
                forall|k: int| 0 <= k < v@.len() ==> self.input_stamp(*nx, k)
                    == (#[trigger] v@[k]).1.id(),
                forall|k: int| 0 <= k < i ==> (#[trigger] m@[k]).0@ == ports[k].0 && exists|j: int|
                    self.is_rep_of(*nx, k, j) && m@[k].1@ == ports[j].0,
                ix.len() == d@.len(),
                forall|t: int, u: int| 0 <= t < u < ix.len() ==> ix[t] < ix[u],
                forall|t: int| 0 <= t < ix.len() ==> {
                    &&& 0 <= #[trigger] ix[t] < i
                    &&& self.is_rep_of(*nx, ix[t], ix[t])
                    &&& d@[t].0@ == ports[ix[t]].0
                    &&& self.input_value(*nx, ports[ix[t]].0) == Some((d@[t].1.id(), d@[t].1.val()))
                },
                forall|k: int| 0 <= k < i && self.is_rep_of(*nx, k, k)
                    ==> exists|t: int| 0 <= t < ix.len() && ix[t] == k,
            decreases v@.len() - i,
        {
            let j = rep[i];
            proof {
                assert(rep@[i as int] <= i);
                assert(self.input_stamp(*nx, j as int) == v@[j as int].1.id());
                assert(self.input_stamp(*nx, i as int) == v@[i as int].1.id());
                assert forall|l: int| 0 <= l < j implies self.input_stamp(*nx,
                    l) != self.input_stamp(*nx, i as int) by {
                    assert(self.input_stamp(*nx, l) == v@[l].1.id());
                }
                assert(self.is_rep_of(*nx, i as int, j as int));
            }
            m.push((v[i].0.clone(), v[j].0.clone()));
            if j == i {
                d.push((v[i].0.clone(), v[i].1.share()));
                proof {
                    let old_ix = ix;
                    ix = ix.push(i as int);
                    assert forall|k: int| 0 <= k < i + 1 && self.is_rep_of(*nx, k, k)
                        implies exists|t: int| 0 <= t < ix.len() && ix[t] == k by {
                        if k < i {
                            let t = choose|t: int| 0 <= t < old_ix.len() && old_ix[t] == k;
                            assert(ix[t] == k);
                        } else {
                            assert(ix[ix.len() - 1] == k);
                        }
                    }
                }
            } else {
                proof {
                    assert(!self.is_rep_of(*nx, i as int, i as int)) by {
                        assert(self.input_stamp(*nx, j as int) == self.input_stamp(*nx, i as int));
                    }
                }
            }
            i = i + 1;
        }
        Some((m, d))
    }

    /// A copy of node `nx` together with its gathered inputs, ready to be
    /// computed elsewhere (see `Graph::compute_node`); `None` when the node
    /// is not ready.
    pub fn get_compute(&self, nx: u32) -> (r: Option<(N, Vec<(String, Wire<W>)>)>)
        where
            N: Clone,
        requires
            self.wf(),
            self.has_node(nx),
        ensures
            r is Some <==> self.inputs_ready(nx),
            r matches Some(c) ==> cloned(self.node_at(nx), c.0) && self.gathered(nx, c.1@),
    {
        match self.get_input_data(&nx) {
            Some(inputs) => {
                let node = self.get_node(nx).clone();
                Some((node, inputs))
            },
            None => None,
        }
    }

    /// Commits the result of computing node `nx`: on success its outputs are
    /// stored and its state replaced; a failure is attributed to the node and
    /// leaves the graph as it was.
    pub fn commit(
        &mut self,
        nx: u32,
        outcome: Result<(Vec<(String, W)>, N), NodeError>,
    ) -> (r: Result<(), GraphError>)
        requires
            old(self).wf(),
            old(self).has_node(nx),
        ensures
            final(self).wf(),
            match outcome {
                Ok((outs, node)) => if old(self).fresh() + outs@.len() <= u64::MAX {
                    &&& r is Ok
                    &&& final(self).ids() == old(self).ids()
                    &&& final(self).node_at(nx) == node
                    &&& forall|n: u32| #[trigger] old(self).has_node(n) && n != nx
                        ==> final(self).node_at(n) == old(self).node_at(n)
                        && final(self).input_ports(n) == old(self).input_ports(n)
                        && final(self).output_ports(n) == old(self).output_ports(n)
                    &&& final(self).edge_seq() == old(self).edge_seq().filter(
                        final(self).fits_ports(nx),
                    )
                    &&& final(self).wires() == stored_after(old(self).wires(), nx, outs@,
                        old(self).fresh() as int)
                    &&& final(self).fresh() == old(self).fresh() + outs@.len()
                    &&& final(self).next_index() == old(self).next_index()
                } else {
                    r == Err::<(), GraphError>(GraphError::StampsExhausted) && *final(self)
                        == *old(self)
                },
                Err(e) => r == Err::<(), GraphError>(GraphError::ComputeFailed(nx, e))
                    && *final(self) == *old(self),
            },
    {
        match outcome {
            Ok((outs, node)) => {
                if outs.len() as u64 > u64::MAX - self.wire_data.fresh_stamp() {
                    return Err(GraphError::StampsExhausted);
                }
                let ghost before = *self;
                self.update_wire_data(nx, outs);
                proof {
                    self.lemma_same_nodes(&before);
                }
                self.set_node_data(nx, node);
                Ok(())
            },
            Err(e) => Err(GraphError::ComputeFailed(nx, e)),
        }
    }

    /// What running node `nx` once does, turning this graph into `after` and
    /// reporting `r`: `Ok(false)` exactly when the node is not ready, and
    /// then nothing changes; an error attributed to the node, and nothing
    /// changes; or `Ok(true)`: the node's outputs were stored with fresh
    /// stamps, its state replaced, the other nodes and their ports kept, and
    /// only edges to ports the node no longer declares dropped.
    pub open(crate) spec fn run_step(&self, nx: u32, r: Result<bool, GraphError>, after: &Self) -> bool {
        &&& after.wf()
        &&& (r == Ok::<bool, GraphError>(false) <==> !self.inputs_ready(nx))
        &&& node_outcome(nx, r)
        &&& r != Ok::<bool, GraphError>(true) ==> *after == *self
        &&& r == Ok::<bool, GraphError>(true) ==> {
            &&& after.ids() == self.ids()
            &&& forall|n: u32| #[trigger] self.has_node(n) && n != nx
                ==> after.node_at(n) == self.node_at(n)
                    && after.input_ports(n) == self.input_ports(n)
                    && after.output_ports(n) == self.output_ports(n)
            &&& after.edge_seq() == self.edge_seq().filter(after.fits_ports(nx))
            &&& after.next_index() == self.next_index()
            &&& exists|outs: Seq<(String, W)>| {
                &&& after.wires() == stored_after(self.wires(), nx, outs, self.fresh() as int)
                &&& after.fresh() == self.fresh() + outs.len()
            }
        }
    }

    /// Running the nodes of `order` one after another, starting from this
    /// graph, reports `rep` and ends in `last`: there are intermediate
    /// graphs, each the result of one `run_step` on the one before.
    pub open(crate) spec fn runs_through(
        &self,
        order: Seq<u32>,
        rep: Seq<(u32, Result<bool, GraphError>)>,
        last: &Self,
    ) -> bool {
        exists|states: Seq<Self>| {
            &&& states.len() == order.len() + 1
            &&& rep.len() == order.len()
            &&& states[0] == *self
            &&& states[order.len() as int] == *last
            &&& forall|i: int| 0 <= i < order.len() ==> (#[trigger] rep[i]).0 == order[i]
                && states[i].run_step(order[i], rep[i].1, &states[i + 1])
        }
    }

    /// Runs node `nx` once if every declared input has a value: `Ok(true)`
    /// when it ran and its result was committed, `Ok(false)`, with the graph
    /// unchanged, when it was not ready.
    pub fn run_node(&mut self, nx: u32) -> (r: Result<bool, GraphError>)
        where
            N: Clone,
        requires
            old(self).wf(),
            old(self).has_node(nx),
        ensures
            final(self).wf(),
            old(self).run_step(nx, r, &*final(self)),
    {
        match self.get_compute(nx) {
            None => Ok(false),
            Some((node, inputs)) => {
                let (_, outcome) = Self::compute_node(nx, node, inputs);
                let ghost o = outcome;
                match self.commit(nx, outcome) {
                    Ok(()) => {
                        proof {
                            let outs = o->Ok_0.0;
                            assert(self.wires() == stored_after(old(self).wires(), nx, outs@,
                                old(self).fresh() as int));
                            assert(self.fresh() == old(self).fresh() + outs@.len());
                        }
                        Ok(true)
                    },
                    Err(e) => Err(e),
                }
            },
        }
    }
}

impl<N: GraphNode<N, P, W>, P, W> Graph<N, P, W> {
    /// Two inputs read one stored instance exactly when the same output
    /// port feeds both: inputs fed by different output ports read different
    /// instances, even where the values are equal. So handles gathered for
    /// the two inputs are aliases (`Wire::alias_of`) exactly when their
    /// producer is shared.
    pub proof fn lemma_alias_iff_same_source(&self, a: u32, an: Seq<char>, b: u32, bn: Seq<char>)
        requires
            self.wf(),
            self.input_value(a, an) is Some,
            self.input_value(b, bn) is Some,
        ensures
            self.parent(a, an) is Some,
            self.parent(b, bn) is Some,
            ((self.input_value(a, an)->0).0 == (self.input_value(b, bn)->0).0) <==> (self.parent(
                a,
                an,
            )->0.node == self.parent(b, bn)->0.node && self.parent(a, an)->0.name@ == self.parent(
                b,
                bn,
            )->0.name@),
    {
        self.wire_data.lemma_stamps();
        let p = self.parent(a, an)->0;
        let q = self.parent(b, bn)->0;
        let kp: WireKey = (p.node, p.name@);
        let kq: WireKey = (q.node, q.name@);
        assert(self.wires().contains_key(kp) && self.wires().contains_key(kq));
        if kp != kq {
            assert(self.wires()[kp].0 != self.wires()[kq].0);
        }
    }
}

/// For each node that a run reached, in order: its id and what running it
/// gave (see `Graph::run_node`).
pub type RunReport = Vec<(u32, Result<bool, GraphError>)>;

/// What a run may report for node `nx`: it ran, it was skipped, or it failed
/// with an error attributed to it.
pub open spec fn node_outcome(nx: u32, r: Result<bool, GraphError>) -> bool {
    r is Err ==> (r == Err::<bool, GraphError>(GraphError::StampsExhausted) || (r matches Err(
        GraphError::ComputeFailed(id, _),
    ) && id == nx))
}

impl<N: GraphNode<N, P, W> + Clone, P, W> Graph<N, P, W> {
    /// Runs node `nx` where the caller insists on it: `MissingInput`, with
    /// the graph unchanged, when one of its inputs has no value; otherwise
    /// as `run_node`.
    pub fn force_node(&mut self, nx: u32) -> (r: Result<(), GraphError>)
        requires
            old(self).wf(),
            old(self).has_node(nx),
        ensures
            final(self).wf(),
            !old(self).inputs_ready(nx) ==> r == Err::<(), GraphError>(GraphError::MissingInput(nx))
                && *final(self) == *old(self),
            old(self).inputs_ready(nx) && r is Err ==> *final(self) == *old(self) && node_outcome(
                nx,
                Err(r->Err_0),
            ),
            r is Ok ==> {
                &&& final(self).ids() == old(self).ids()
                &&& forall|n: u32| #[trigger] old(self).has_node(n) && n != nx
                    ==> final(self).node_at(n) == old(self).node_at(n)
                        && final(self).input_ports(n) == old(self).input_ports(n)
                        && final(self).output_ports(n) == old(self).output_ports(n)
                &&& final(self).edge_seq() == old(self).edge_seq().filter(
                    final(self).fits_ports(nx),
                )
                &&& exists|outs: Seq<(String, W)>| final(self).wires()
                    == stored_after(old(self).wires(), nx, outs, old(self).fresh() as int)
            },
    {
        match self.run_node(nx) {
            Ok(true) => Ok(()),
            Ok(false) => Err(GraphError::MissingInput(nx)),
            Err(e) => Err(e),
        }
    }

    /// Runs the nodes of `order` one after another, each one only when its
    /// inputs have values. A failed node stores nothing, so the nodes that
    /// depend on it find an input missing and are skipped, while the other
    /// branches go on.
    pub fn run_nodes(&mut self, order: &Vec<u32>) -> (r: RunReport)
        requires
            old(self).wf(),
            forall|i: int| 0 <= i < order@.len() ==> old(self).has_node(#[trigger] order@[i]),
        ensures
            final(self).wf(),
            final(self).ids() == old(self).ids(),
            final(self).next_index() == old(self).next_index(),
            old(self).runs_through(order@, r@, &*final(self)),
            r@.len() == order@.len(),
            forall|i: int| 0 <= i < r@.len() ==> (#[trigger] r@[i]).0 == order@[i]
                && node_outcome(order@[i], r@[i].1),
    {
        let mut r: RunReport = Vec::new();
        let ghost mut states: Seq<Self> = seq![*self];
        let mut i: usize = 0;
        while i < order.len()
            invariant
                self.wf(),
                i <= order@.len(),
                self.ids() == old(self).ids(),
                self.next_index() == old(self).next_index(),
                states.len() == i + 1,
                states[0] == *old(self),
                states[i as int] == *self,
                forall|j: int| 0 <= j < i ==> (#[trigger] r@[j]).0 == order@[j]
                    && states[j].run_step(order@[j], r@[j].1, &states[j + 1]),
                forall|j: int| 0 <= j < order@.len() ==> old(self).has_node(#[trigger] order@[j]),
                r@.len() == i,
                forall|j: int| 0 <= j < i ==> (#[trigger] r@[j]).0 == order@[j]
                    && node_outcome(order@[j], r@[j].1),
            decreases order@.len() - i,
        {
            let nx = order[i];
            proof {
                self.lemma_same_ids(old(self));
            }
            let ghost before = *self;
            let outcome = self.run_node(nx);
            proof {
                if outcome is Err {
                    assert(*self == before);
                }
                states = states.push(*self);
            }
            r.push((nx, outcome));
            i = i + 1;
        }
        proof {
            assert(old(self).runs_through(order@, r@, &*self));
        }
        r
    }

    /// Runs the whole graph in the order of `topological_sort`, starting
    /// from an empty value store. `CycleDetected`, with the graph left as it
    /// was, when there is no such order.
    pub fn run_all(&mut self) -> (r: Result<RunReport, GraphError>)
        requires
            old(self).wf(),
        ensures
            final(self).wf(),
            r is Ok <==> old(self).acyclic(),
            r matches Err(e) ==> e matches GraphError::CycleDetected(c) && old(self).on_cycle(c)
                && *final(self) == *old(self),
            r matches Ok(rep) ==> {
                &&& rep@.len() == old(self).schedule().len()
                &&& forall|i: int| 0 <= i < rep@.len() ==> (#[trigger] rep@[i]).0
                    == old(self).schedule()[i] && node_outcome(rep@[i].0, rep@[i].1)
                &&& final(self).ids() == old(self).ids()
                &&& exists|start: Self| {
                    &&& start.same_but_wires(old(self))
                    &&& start.wires() == Map::<WireKey, (u64, W)>::empty()
                    &&& start.fresh() == old(self).fresh()
                    &&& start.runs_through(old(self).schedule(), rep@, &*final(self))
                }
            },
    {
        let order = match self.topological_sort() {
            Ok(order) => order,
            Err(e) => {
                return Err(e);
            },
        };
        self.clear_wire_data();
        let ghost start = *self;
        proof {
            self.lemma_same_nodes(old(self));
            assert forall|i: int| 0 <= i < order@.len()
                implies self.has_node(#[trigger] order@[i]) by {
                assert(order@.contains(order@[i]));
            }
        }
        let rep = self.run_nodes(&order);
        proof {
            assert(start.runs_through(old(self).schedule(), rep@, &*self));
        }
        Ok(rep)
    }

    /// Runs `root` and its descendants again, in the order of
    /// `subgraph_order`, after dropping their stored values; the values of
    /// every other node stay as they were. `CycleDetected`, with the graph
    /// left as it was, when the graph has no order.
    pub fn run_from(&mut self, root: u32) -> (r: Result<RunReport, GraphError>)
        requires
            old(self).wf(),
        ensures
            final(self).wf(),
            r is Ok <==> old(self).acyclic(),
            r matches Err(e) ==> e matches GraphError::CycleDetected(c) && old(self).on_cycle(c)
                && *final(self) == *old(self),
            r matches Ok(rep) ==> {
                let sub = old(self).schedule().filter(old(self).descends(root));
                &&& rep@.len() == sub.len()
                &&& forall|i: int| 0 <= i < rep@.len() ==> (#[trigger] rep@[i]).0 == sub[i]
                    && node_outcome(rep@[i].0, rep@[i].1)
                &&& final(self).ids() == old(self).ids()
                &&& exists|start: Self| {
                    &&& start.same_but_wires(old(self))
                    &&& forall|k: WireKey| #[trigger] start.wires().contains_key(k)
                        <==> old(self).wires().contains_key(k) && !sub.contains(k.0)
                    &&& forall|k: WireKey| #[trigger] start.wires().contains_key(k)
                        ==> start.wires()[k] == old(self).wires()[k]
                    &&& start.fresh() == old(self).fresh()
                    &&& start.runs_through(sub, rep@, &*final(self))
                }
            },
    {
        let order = match self.subgraph_order(root) {
            Ok(order) => order,
            Err(e) => {
                return Err(e);
            },
        };
        proof {
            let s = self.schedule();
            assert forall|i: int| 0 <= i < order@.len()
                implies self.has_node(#[trigger] order@[i]) by {
                assert(order@.contains(order@[i]));
                s.lemma_filter_contains_rev(self.descends(root), order@[i]);
            }
        }
        let mut i: usize = 0;
        while i < order.len()
            invariant
                self.wf(),
                i <= order@.len(),
                self.same_but_wires(old(self)),
                self.fresh() == old(self).fresh(),
                forall|k: WireKey| #[trigger] self.wires().contains_key(k)
                    <==> old(self).wires().contains_key(k) && !order@.subrange(0, i as int).contains(k.0),
                forall|k: WireKey| #[trigger] self.wires().contains_key(k)
                    ==> self.wires()[k] == old(self).wires()[k],
            decreases order@.len() - i,
        {
            let ghost before = *self;
            self.remove_wire_data(order[i]);
            proof {
                assert forall|k: WireKey| #[trigger] self.wires().contains_key(k)
                    <==> old(self).wires().contains_key(k) && !order@.subrange(0, i + 1).contains(k.0) by {
                    assert(order@.subrange(0, i + 1) =~= order@.subrange(0, i as int).push(order@[i as int]));
                    if order@.subrange(0, i as int).contains(k.0) {
                        let t = choose|t: int| 0 <= t < i && order@.subrange(0, i as int)[t] == k.0;
                        assert(order@.subrange(0, i + 1)[t] == k.0);
                    }
                    let s1 = order@.subrange(0, i + 1);
                    if s1.contains(k.0) && k.0 != order@[i as int] {
                        let t = choose|t: int| 0 <= t < s1.len() && s1[t] == k.0;
                        assert(order@.subrange(0, i as int)[t] == k.0);
                    }
                    if k.0 == order@[i as int] {
                        assert(order@.subrange(0, i + 1)[i as int] == k.0);
                    }
                }
            }
            i = i + 1;
        }
        let ghost start = *self;
        proof {
            self.lemma_same_nodes(old(self));
            assert(order@.subrange(0, order@.len() as int) =~= order@);
        }
        let rep = self.run_nodes(&order);
        proof {
            assert(start.runs_through(order@, rep@, &*self));
        }
        Ok(rep)
    }
}

} // verus!
