use vstd::prelude::*;

use crate::error::GraphError;
use crate::graph::Graph;
use crate::topology::avoiding;

verus! {

/// Whether `x` occurs in `v`.
pub fn contains_id(v: &Vec<u32>, x: u32) -> (r: bool)
    ensures
        r == v@.contains(x),
{
    let mut i: usize = 0;
    while i < v.len()
        invariant
            i <= v@.len(),
            forall|j: int| 0 <= j < i ==> v@[j] != x,
        decreases v@.len() - i,
    {
        if v[i] == x {
            return true;
        }
        i = i + 1;
    }
    false
}

/// The first position, up to `k`, of `t` whose element `s` lacks.
proof fn first_outside(t: Seq<u32>, s: Seq<u32>, k: int) -> (j: int)
    requires
        0 <= k < t.len(),
        !s.contains(t[k]),
    ensures
        0 <= j <= k,
        !s.contains(t[j]),
        forall|m: int| 0 <= m < j ==> s.contains(t[m]),
    decreases k,
{
    if exists|m: int| 0 <= m < k && !s.contains(t[m]) {
        let m = choose|m: int| 0 <= m < k && !s.contains(t[m]);
        first_outside(t, s, m)
    } else {
        k
    }
}

impl<N, P, W> Graph<N, P, W> {
    /// Node `n` can run once the nodes in `done` have: it is in the graph,
    /// not done yet, and every edge into it starts at a done node.
    pub open(crate) spec fn ready(&self, done: Seq<u32>, n: u32) -> bool {
        &&& self.has_node(n)
        &&& !done.contains(n)
        &&& forall|k: int|
            0 <= k < self.edges@.len() && #[trigger] self.edges@[k].1.node == n ==> done.contains(
                self.edges@[k].0.node,
            )
    }

    /// Position of the last ready node among the first `i` of the node
    /// list, or -1 when none of them is ready.
    pub open(crate) spec fn last_ready(&self, done: Seq<u32>, i: int) -> int
        decreases i,
    {
        if i <= 0 {
            -1
        } else if self.ready(done, self.nodes@[i - 1].0) {
            i - 1
        } else {
            self.last_ready(done, i - 1)
        }
    }

    /// The order that the scheduler continues `done` with: it takes, again
    /// and again, the ready node of highest id, until no node is ready.
    pub open(crate) spec fn schedule_from(&self, done: Seq<u32>) -> Seq<u32>
        decreases self.ids().len() - done.len(),
    {
        if done.len() >= self.nodes@.len() {
            done
        } else {
            let i = self.last_ready(done, self.nodes@.len() as int);
            if i < 0 {
                done
            } else {
                self.schedule_from(done.push(self.nodes@[i].0))
            }
        }
    }

    /// The scheduler's order of the whole graph; it holds every node exactly
    /// when the graph has no cycle.
    pub open(crate) spec fn schedule(&self) -> Seq<u32> {
        self.schedule_from(Seq::empty())
    }

    /// Node `n` lies on a cycle: a walk of one edge or more leads from `n`
    /// back to `n`.
    pub open(crate) spec fn on_cycle(&self, n: u32) -> bool {
        exists|p: Seq<u32>| self.is_path(p) && p.len() >= 2 && p[0] == n && p.last() == n
    }

    /// `s` lists every node once, and each edge's source before its
    /// destination.
    pub open(crate) spec fn is_topo_order(&self, s: Seq<u32>) -> bool {
        &&& s.no_duplicates()
        &&& forall|n: u32| s.contains(n) <==> self.has_node(n)
        &&& forall|i: int, j: int|
            0 <= i < s.len() && 0 <= j < s.len() && self.has_edge(s[i], s[j]) ==> i < j
    }

    /// Some order of the nodes respects every edge: the graph has no cycle.
    pub open(crate) spec fn acyclic(&self) -> bool {
        exists|s: Seq<u32>| self.is_topo_order(s)
    }

    /// Each node of `s` was ready once the nodes before it had run.
    pub open(crate) spec fn valid_prefix(&self, s: Seq<u32>) -> bool {
        forall|j: int| 0 <= j < s.len() ==> self.ready(#[trigger] s.subrange(0, j), s[j])
    }

    proof fn lemma_last_ready(&self, done: Seq<u32>, i: int)
        requires
            0 <= i <= self.nodes@.len(),
        ensures
            self.last_ready(done, i) < i,
            self.last_ready(done, i) >= 0 ==> self.ready(
                done,
                self.nodes@[self.last_ready(done, i)].0,
            ),
            self.last_ready(done, i) < 0 ==> forall|j: int|
                0 <= j < i ==> !self.ready(done, #[trigger] self.nodes@[j].0),
            self.last_ready(done, i) >= -1,
        decreases i,
    {
        if i > 0 {
            self.lemma_last_ready(done, i - 1);
        }
    }

    proof fn lemma_valid_prefix_push(&self, s: Seq<u32>, x: u32)
        requires
            self.valid_prefix(s),
            self.ready(s, x),
        ensures
            self.valid_prefix(s.push(x)),
    {
        let t = s.push(x);
        assert forall|j: int| 0 <= j < t.len() implies self.ready(#[trigger] t.subrange(0, j),
            t[j]) by {
            if j < s.len() {
                assert(t.subrange(0, j) =~= s.subrange(0, j));
                assert(self.ready(s.subrange(0, j), s[j]));
            } else {
                assert(t.subrange(0, j) =~= s);
            }
        }
    }

    /// A valid prefix names nodes of the graph, each once.
    proof fn lemma_valid_prefix_distinct(&self, s: Seq<u32>)
        requires
            self.valid_prefix(s),
        ensures
            s.no_duplicates(),
            forall|n: u32| s.contains(n) ==> self.has_node(n),
    {
        assert forall|i: int, j: int| 0 <= i < s.len() && 0 <= j < s.len() && i != j implies s[i]
            != s[j] by {
            if i < j {
                assert(self.ready(s.subrange(0, j), s[j]));
                assert(s.subrange(0, j)[i] == s[i]);
            } else {
                assert(self.ready(s.subrange(0, i), s[i]));
                assert(s.subrange(0, i)[j] == s[j]);
            }
        }
        assert forall|n: u32| s.contains(n) implies self.has_node(n) by {
            let j = choose|j: int| 0 <= j < s.len() && s[j] == n;
            assert(self.ready(s.subrange(0, j), s[j]));
        }
    }

    /// Distinct nodes of the graph are at most as many as the nodes; as
    /// many only when they are all of them.
    proof fn lemma_count(&self, s: Seq<u32>)
        requires
            self.wf(),
            s.no_duplicates(),
            forall|n: u32| s.contains(n) ==> self.has_node(n),
        ensures
            s.len() <= self.nodes@.len(),
            s.len() == self.nodes@.len() ==> forall|n: u32| self.has_node(n) ==> s.contains(n),
            s.len() < self.nodes@.len() ==> exists|n: u32| self.has_node(n) && !s.contains(n),
    {
        let ids = self.ids();
        assert(ids.no_duplicates()) by {
            assert forall|i: int, j: int| 0 <= i < ids.len() && 0 <= j < ids.len()
                && i != j implies ids[i]
                != ids[j] by {
                if i < j {
                    assert(self.nodes@[i].0 < self.nodes@[j].0);
                } else {
                    assert(self.nodes@[j].0 < self.nodes@[i].0);
                }
            }
        }
        assert forall|n: u32| self.has_node(n) <==> ids.contains(n) by {
            if self.has_node(n) {
                let i = choose|i: int| 0 <= i < self.nodes@.len() && self.nodes@[i].0 == n;
                assert(ids[i] == n);
            }
            if ids.contains(n) {
                let i = choose|i: int| 0 <= i < ids.len() && ids[i] == n;
                assert(self.nodes@[i].0 == n);
            }
        }
        s.unique_seq_to_set();
        ids.unique_seq_to_set();
        assert(s.to_set().subset_of(ids.to_set()));
        vstd::set_lib::lemma_len_subset(s.to_set(), ids.to_set());
        if s.len() == self.nodes@.len() {
            vstd::set_lib::lemma_subset_equality(s.to_set(), ids.to_set());
            assert forall|n: u32| self.has_node(n) implies s.contains(n) by {
                assert(ids.to_set().contains(n));
            }
        }
        if s.len() < self.nodes@.len() {
            if forall|n: u32| self.has_node(n) ==> s.contains(n) {
                assert(ids.to_set().subset_of(s.to_set()));
                vstd::set_lib::lemma_len_subset(ids.to_set(), s.to_set());
            }
        }
    }

    /// A valid prefix that holds every node is an order that respects every
    /// edge.
    proof fn lemma_complete_is_topo(&self, s: Seq<u32>)
        requires
            self.wf(),
            self.valid_prefix(s),
            s.len() == self.nodes@.len(),
        ensures
            self.is_topo_order(s),
    {
        self.lemma_valid_prefix_distinct(s);
        self.lemma_count(s);
        assert forall|i: int, j: int|
            0 <= i < s.len() && 0 <= j < s.len() && self.has_edge(s[i], s[j]) implies i < j by {
            let k = choose|k: int|
                0 <= k < self.edges@.len() && self.edges@[k].0.node == s[i] && self.edges@[k].1.node
                    == s[j];
            assert(self.ready(s.subrange(0, j), s[j]));
            assert(s.subrange(0, j).contains(s[i]));
            let m = choose|m: int| 0 <= m < j && s.subrange(0, j)[m] == s[i];
            assert(s[m] == s[i]);
        }
    }

    /// When no node is ready after a valid prefix that misses a node, no
    /// order respects every edge.
    proof fn lemma_stuck_is_cyclic(&self, s: Seq<u32>)
        requires
            self.wf(),
            self.valid_prefix(s),
            forall|n: u32| !self.ready(s, n),
            exists|n: u32| self.has_node(n) && !s.contains(n),
        ensures
            !self.acyclic(),
    {
        if self.acyclic() {
            let t = choose|t: Seq<u32>| self.is_topo_order(t);
            let u = choose|n: u32| self.has_node(n) && !s.contains(n);
            assert(t.contains(u));
            let k = choose|k: int| 0 <= k < t.len() && t[k] == u;
            let j = first_outside(t, s, k);
            assert(t.contains(t[j]));
            assert(!self.ready(s, t[j]));
            let e = choose|e: int|
                0 <= e < self.edges@.len() && #[trigger] self.edges@[e].1.node == t[j]
                    && !s.contains(self.edges@[e].0.node);
            let a = self.edges@[e].0.node;
            assert(self.has_node(a));
            assert(t.contains(a));
            let m = choose|m: int| 0 <= m < t.len() && t[m] == a;
            assert(self.has_edge(t[m], t[j]));
        }
    }

    /// Whether node `n` (of the graph) is ready after `done`.
    fn is_ready(&self, done: &Vec<u32>, n: u32) -> (r: bool)
        requires
            self.has_node(n),
        ensures
            r == self.ready(done@, n),
    {
        if contains_id(done, n) {
            return false;
        }
        let mut k: usize = 0;
        while k < self.edges.len()
            invariant
                k <= self.edges@.len(),
                forall|m: int|
                    0 <= m < k && #[trigger] self.edges@[m].1.node == n ==> done@.contains(
                        self.edges@[m].0.node,
                    ),
            decreases self.edges@.len() - k,
        {
            if self.edges[k].1.node == n && !contains_id(done, self.edges[k].0.node) {
                return false;
            }
            k = k + 1;
        }
        true
    }

    /// Position of the ready node of highest id, if any node is ready.
    fn find_last_ready(&self, done: &Vec<u32>) -> (r: Option<usize>)
        requires
            self.wf(),
        ensures
            match r {
                Some(i) => i as int == self.last_ready(done@, self.nodes@.len() as int),
                None => self.last_ready(done@, self.nodes@.len() as int) < 0,
            },
    {
        let mut i = self.nodes.len();
        while i > 0
            invariant
                i <= self.nodes@.len(),
                self.last_ready(done@, self.nodes@.len() as int) == self.last_ready(done@,
                    i as int),
            decreases i,
        {
            proof {
                let j = (i - 1) as int;
                assert(self.has_node(self.nodes@[j].0));
            }
            if self.is_ready(done, self.nodes[i - 1].0) {
                return Some(i - 1);
            }
            i = i - 1;
        }
        None
    }

    /// The nodes in an order where every edge's source comes before its
    /// destination. The scheduler takes, again and again, the ready node of
    /// highest id; when no node is ready while some remain, the graph has a
    /// cycle, and a node on a cycle is reported.
    pub fn topological_sort(&self) -> (r: Result<Vec<u32>, GraphError>)
        requires
            self.wf(),
        ensures
            r is Ok <==> self.acyclic(),
            match r {
                Ok(order) => {
                    &&& order@ == self.schedule()
                    &&& self.is_topo_order(order@)
                },
                Err(e) => {
                    &&& e matches GraphError::CycleDetected(c)
                    &&& self.has_node(e->CycleDetected_0)
                    &&& self.on_cycle(e->CycleDetected_0)
                    &&& !self.schedule().contains(e->CycleDetected_0)
                    &&& !self.acyclic()
                },
            },
    {
        let mut done: Vec<u32> = Vec::new();
        proof {
            assert(self.valid_prefix(done@));
        }
        loop
            invariant
                self.wf(),
                done@.len() <= self.nodes@.len(),
                self.valid_prefix(done@),
                self.schedule_from(done@) == self.schedule(),
            ensures
                self.schedule_from(done@) == done@,
                done@.len() >= self.nodes@.len() || self.last_ready(
                    done@,
                    self.nodes@.len() as int,
                ) < 0,
            decreases self.nodes@.len() - done@.len(),
        {
            if done.len() >= self.nodes.len() {
                break;
            }
            match self.find_last_ready(&done) {
                Some(i) => {
                    proof {
                        self.lemma_last_ready(done@, self.nodes@.len() as int);
                        self.lemma_valid_prefix_push(done@, self.nodes@[i as int].0);
                    }
                    done.push(self.nodes[i].0);
                    proof {
                        self.lemma_valid_prefix_distinct(done@);
                        self.lemma_count(done@);
                    }
                },
                None => {
                    break;
                },
            }
        }
        proof {
            self.lemma_valid_prefix_distinct(done@);
            self.lemma_count(done@);
            assert(done@ == self.schedule());
        }
        if done.len() == self.nodes.len() {
            proof {
                self.lemma_complete_is_topo(done@);
            }
            return Ok(done);
        }
        proof {
            self.lemma_last_ready(done@, self.nodes@.len() as int);
            assert forall|n: u32| !self.ready(done@, n) by {
                if self.ready(done@, n) {
                    let i = self.pos(n);
                    assert(!self.ready(done@, self.nodes@[i].0));
                }
            }
            self.lemma_stuck_is_cyclic(done@);
        }
        let start = self.first_missing(&done);
        let c = self.node_on_cycle(&done, start);
        Err(GraphError::CycleDetected(c))
    }

    /// A node of the graph that `done` lacks, given that there is one.
    fn first_missing(&self, done: &Vec<u32>) -> (r: u32)
        requires
            self.wf(),
            exists|n: u32| self.has_node(n) && !done@.contains(n),
        ensures
            self.has_node(r),
            !done@.contains(r),
    {
        let mut i: usize = 0;
        while i < self.nodes.len()
            invariant
                i <= self.nodes@.len(),
                exists|n: u32| self.has_node(n) && !done@.contains(n),
                forall|j: int| 0 <= j < i ==> done@.contains(#[trigger] self.nodes@[j].0),
            decreases self.nodes@.len() - i,
        {
            let n = self.nodes[i].0;
            if !contains_id(done, n) {
                assert(self.has_node(n)) by {
                    assert(self.nodes@[i as int].0 == n);
                }
                return n;
            }
            i = i + 1;
        }
        // Not reached: some node is missing from `done`.
        proof {
            let n = choose|n: u32| self.has_node(n) && !done@.contains(n);
            let j = self.pos(n);
            assert(done@.contains(self.nodes@[j].0));
            assert(false);
        }
        0
    }

    /// A parent of node `c` that `done` lacks, where `c` is not ready.
    fn predecessor_outside(&self, done: &Vec<u32>, c: u32) -> (r: u32)
        requires
            self.wf(),
            self.has_node(c),
            !done@.contains(c),
            !self.ready(done@, c),
        ensures
            self.has_node(r),
            !done@.contains(r),
            self.has_edge(r, c),
    {
        let mut k: usize = 0;
        while k < self.edges.len()
            invariant
                self.wf(),
                k <= self.edges@.len(),
                !self.ready(done@, c),
                self.has_node(c),
                !done@.contains(c),
                forall|j: int|
                    0 <= j < k && #[trigger] self.edges@[j].1.node == c ==> done@.contains(
                        self.edges@[j].0.node,
                    ),
            decreases self.edges@.len() - k,
        {
            let a = self.edges[k].0.node;
            if self.edges[k].1.node == c && !contains_id(done, a) {
                assert(self.has_edge(a, c));
                return a;
            }
            k = k + 1;
        }
        // Not reached: `c` would be ready.
        proof {
            assert(false);
        }
        0
    }

    /// A node on a cycle among the nodes that `done` lacks: from `start`,
    /// it walks back along parents outside `done` until a node repeats.
    fn node_on_cycle(&self, done: &Vec<u32>, start: u32) -> (r: u32)
        requires
            self.wf(),
            self.has_node(start),
            !done@.contains(start),
            forall|n: u32| !self.ready(done@, n),
        ensures
            self.has_node(r),
            !done@.contains(r),
            self.on_cycle(r),
    {
        let mut w: Vec<u32> = Vec::new();
        w.push(start);
        proof {
            assert(w@.no_duplicates());
            assert(w@.contains(start) ==> self.has_node(start));
            assert forall|n: u32| w@.contains(n) implies self.has_node(n) by {
                assert(w@[0] == start);
            }
            self.lemma_count(w@);
        }
        loop
            invariant
                self.wf(),
                forall|n: u32| !self.ready(done@, n),
                1 <= w@.len() <= self.nodes@.len(),
                w@.no_duplicates(),
                forall|i: int| 0 <= i < w@.len() ==> self.has_node(#[trigger] w@[i]) && !done@.contains(w@[i]),
                forall|i: int| 0 <= i < w@.len() - 1 ==> self.has_edge(#[trigger] w@[i + 1], w@[i]),
            decreases self.nodes@.len() - w@.len(),
        {
            let c = w[w.len() - 1];
            let p = self.predecessor_outside(done, c);
            let mut j: usize = 0;
            while j < w.len()
                invariant
                    j <= w@.len(),
                    1 <= w@.len(),
                    c == w@[w@.len() - 1],
                    self.has_edge(p, c),
                    self.has_node(p),
                    !done@.contains(p),
                    forall|i: int| 0 <= i < w@.len() - 1 ==> self.has_edge(#[trigger] w@[i + 1], w@[i]),
                    forall|t: int| 0 <= t < j ==> w@[t] != p,
                decreases w@.len() - j,
            {
                if w[j] == p {
                    proof {
                        let k = w@.len() - 1;
                        let q = Seq::new((k - j + 2) as nat, |t: int| if t == 0 { p } else { w@[k - t + 1] });
                        assert forall|t: int| 0 <= t < q.len() - 1 implies self.has_edge(#[trigger] q[t], q[t + 1]) by {
                            if t == 0 {
                                assert(q[1] == w@[k]);
                            } else {
                                assert(q[t] == w@[(k - t) + 1] && q[t + 1] == w@[k - t]);
                                assert(self.has_edge(w@[(k - t) + 1], w@[k - t]));
                            }
                        }
                        assert(self.is_path(q) && q.len() >= 2 && q[0] == p && q.last() == p);
                    }
                    return p;
                }
                j = j + 1;
            }
            let ghost before = w@;
            w.push(p);
            proof {
                assert forall|a: int, b: int| 0 <= a < w@.len() && 0 <= b < w@.len() && a != b implies w@[a] != w@[b] by {
                    if a < before.len() && b < before.len() {
                        assert(before[a] != before[b]);
                    }
                }
                assert forall|n: u32| w@.contains(n) implies self.has_node(n) by {
                    let t = choose|t: int| 0 <= t < w@.len() && w@[t] == n;
                    assert(self.has_node(w@[t]));
                }
                assert forall|i: int| 0 <= i < w@.len() - 1 implies self.has_edge(#[trigger] w@[i + 1], w@[i]) by {
                    if i < before.len() - 1 {
                        assert(self.has_edge(before[i + 1], before[i]));
                    }
                }
                self.lemma_count(w@);
            }
        }
    }
}

impl<N, P, W> Graph<N, P, W> {
    /// `p` is a walk along edges: one node or more, each next one fed by an
    /// edge from the one before.
    pub open(crate) spec fn is_path(&self, p: Seq<u32>) -> bool {
        &&& p.len() >= 1
        &&& forall|i: int| 0 <= i < p.len() - 1 ==> self.has_edge(#[trigger] p[i], p[i + 1])
    }

    /// `n` is `root` or one of its descendants: some walk along edges leads
    /// from `root` to `n`.
    pub open(crate) spec fn reaches(&self, root: u32, n: u32) -> bool {
        exists|p: Seq<u32>| self.is_path(p) && p[0] == root && p.last() == n
    }

    /// Keeps `root` and its descendants.
    pub open(crate) spec fn descends(&self, root: u32) -> spec_fn(u32) -> bool {
        |n: u32| self.reaches(root, n)
    }

    /// Some edge from a node of `d` ends at `n`.
    pub open(crate) spec fn fed_by(&self, d: Seq<u32>, n: u32) -> bool {
        exists|k: int|
            0 <= k < self.edges@.len() && #[trigger] self.edges@[k].1.node == n && d.contains(
                self.edges@[k].0.node,
            )
    }

    /// A set that holds the start of a walk and is closed along edges holds
    /// its end.
    proof fn lemma_path_closed(&self, p: Seq<u32>, d: Seq<u32>)
        requires
            self.is_path(p),
            d.contains(p[0]),
            forall|k: int|
                0 <= k < self.edges@.len() && d.contains(#[trigger] self.edges@[k].0.node)
                    ==> d.contains(self.edges@[k].1.node),
        ensures
            d.contains(p.last()),
        decreases p.len(),
    {
        if p.len() > 1 {
            let q = p.drop_last();
            assert forall|i: int| 0 <= i < q.len() - 1 implies self.has_edge(#[trigger] q[i],
                q[i + 1]) by {
                assert(self.has_edge(p[i], p[i + 1]));
            }
            self.lemma_path_closed(q, d);
            let i = p.len() - 2;
            assert(self.has_edge(p[i], p[i + 1]));
            let k = choose|k: int|
                0 <= k < self.edges@.len() && self.edges@[k].0.node == p[i] && self.edges@[k].1.node
                    == p[i + 1];
        }
    }

    /// Whether some edge from a node of `d` ends at `n`.
    fn is_fed_by(&self, d: &Vec<u32>, n: u32) -> (r: bool)
        ensures
            r == self.fed_by(d@, n),
    {
        let mut k: usize = 0;
        while k < self.edges.len()
            invariant
                k <= self.edges@.len(),
                forall|j: int|
                    0 <= j < k && #[trigger] self.edges@[j].1.node == n ==> !d@.contains(
                        self.edges@[j].0.node,
                    ),
            decreases self.edges@.len() - k,
        {
            if self.edges[k].1.node == n && contains_id(d, self.edges[k].0.node) {
                return true;
            }
            k = k + 1;
        }
        false
    }

    /// The order of `topological_sort` restricted to `root` and its
    /// descendants: what must run again after `root` changed. The same
    /// `CycleDetected` error where that fails.
    pub fn subgraph_order(&self, root: u32) -> (r: Result<Vec<u32>, GraphError>)
        requires
            self.wf(),
        ensures
            match r {
                Ok(order) => {
                    &&& self.is_topo_order(self.schedule())
                    &&& order@ == self.schedule().filter(self.descends(root))
                },
                Err(e) => {
                    &&& e matches GraphError::CycleDetected(c)
                    &&& self.has_node(e->CycleDetected_0)
                    &&& self.on_cycle(e->CycleDetected_0)
                    &&& !self.acyclic()
                },
            },
    {
        let full = match self.topological_sort() {
            Ok(v) => v,
            Err(e) => {
                return Err(e);
            },
        };
        let ghost s = full@;
        let mut desc: Vec<u32> = Vec::new();
        let mut i: usize = 0;
        while i < full.len()
            invariant
                self.wf(),
                s == full@,
                self.is_topo_order(s),
                i <= s.len(),
                forall|x: u32| #[trigger] desc@.contains(x) ==> self.reaches(root, x),
                forall|j: int|
                    0 <= j < i ==> (desc@.contains(#[trigger] s[j]) <==> (s[j] == root
                        || self.fed_by(
                        desc@,
                        s[j],
                    ))),
                forall|x: u32| #[trigger] desc@.contains(x) ==> exists|j: int| 0 <= j < i
                    && s[j] == x,
            decreases s.len() - i,
        {
            let n = full[i];
            let ghost before = desc@;
            if n == root || self.is_fed_by(&desc, n) {
                proof {
                    if n == root {
                        let p = seq![root];
                        assert(self.is_path(p) && p[0] == root && p.last() == n);
                    } else {
                        let k = choose|k: int|
                            0 <= k < self.edges@.len() && #[trigger] self.edges@[k].1.node == n
                                && before.contains(self.edges@[k].0.node);
                        let m = self.edges@[k].0.node;
                        assert(self.reaches(root, m));
                        let p = choose|p: Seq<u32>| self.is_path(p) && p[0] == root && p.last()
                            == m;
                        let q = p.push(n);
                        assert forall|t: int| 0 <= t < q.len() - 1
                            implies self.has_edge(#[trigger] q[t], q[t + 1]) by {
                            if t < p.len() - 1 {
                                assert(self.has_edge(p[t], p[t + 1]));
                            } else {
                                assert(q[t] == m);
                            }
                        }
                        assert(self.is_path(q) && q[0] == root && q.last() == n);
                    }
                }
                desc.push(n);
                proof {
                    assert forall|x: u32| #[trigger] desc@.contains(x) <==> before.contains(x)
                        || x == n by {
                        if before.contains(x) {
                            let t = choose|t: int| 0 <= t < before.len() && before[t] == x;
                            assert(desc@[t] == x);
                        }
                        if x == n {
                            assert(desc@[before.len() as int] == n);
                        }
                        if desc@.contains(x) {
                            let t = choose|t: int| 0 <= t < desc@.len() && desc@[t] == x;
                            if t < before.len() {
                                assert(before[t] == x);
                            }
                        }
                    }
                    assert forall|j: int| 0 <= j < i implies (desc@.contains(#[trigger] s[j])
                        <==> (s[j]
                        == root || self.fed_by(desc@, s[j]))) by {
                        assert(desc@.contains(s[j]) <==> (before.contains(s[j]) || s[j] == n));
                        if s[j] == n {
                            assert(s[i as int] == n);
                        }
                        if self.fed_by(desc@, s[j]) && !self.fed_by(before, s[j]) {
                            let k = choose|k: int|
                                0 <= k < self.edges@.len() && #[trigger] self.edges@[k].1.node
                                    == s[j]
                                    && desc@.contains(self.edges@[k].0.node);
                            assert(!before.contains(self.edges@[k].0.node));
                            assert(self.edges@[k].0.node == n);
                            assert(self.has_edge(s[i as int], s[j]));
                        }
                        if self.fed_by(before, s[j]) {
                            let k = choose|k: int|
                                0 <= k < self.edges@.len() && #[trigger] self.edges@[k].1.node
                                    == s[j]
                                    && before.contains(self.edges@[k].0.node);
                            assert(desc@.contains(self.edges@[k].0.node));
                        }
                    }
                    assert(desc@.contains(s[i as int]));
                    assert forall|x: u32| #[trigger] desc@.contains(x) implies exists|j: int|
                        0 <= j < i + 1 && s[j] == x by {
                        if x != n {
                            assert(before.contains(x));
                        } else {
                            assert(s[i as int] == x);
                        }
                    }
                }
            } else {
                proof {
                    assert forall|j: int| 0 <= j < i + 1
                        implies (desc@.contains(#[trigger] s[j]) <==> (
                    s[j] == root || self.fed_by(desc@, s[j]))) by {
                        if j == i {
                            if desc@.contains(s[j]) {
                                let jj = choose|jj: int| 0 <= jj < i && s[jj] == s[j];
                            }
                        }
                    }
                }
            }
            i = i + 1;
        }
        proof {
            assert forall|k: int|
                0 <= k < self.edges@.len() && desc@.contains(#[trigger] self.edges@[k].0.node)
                    implies desc@.contains(self.edges@[k].1.node) by {
                let b = self.edges@[k].1.node;
                assert(s.contains(b));
                let j = choose|j: int| 0 <= j < s.len() && s[j] == b;
                assert(self.fed_by(desc@, s[j]));
            }
            assert forall|j: int| 0 <= j < s.len() implies (desc@.contains(#[trigger] s[j])
                <==> self.reaches(root, s[j])) by {
                if self.reaches(root, s[j]) {
                    let p = choose|p: Seq<u32>| self.is_path(p) && p[0] == root && p.last() == s[j];
                    if p.len() == 1 {
                    } else {
                        assert(self.has_edge(p[0], p[1]));
                        let k = choose|k: int|
                            0 <= k < self.edges@.len() && self.edges@[k].0.node == p[0]
                                && self.edges@[k].1.node == p[1];
                        assert(s.contains(root));
                        let jr = choose|jr: int| 0 <= jr < s.len() && s[jr] == root;
                        assert(desc@.contains(s[jr]));
                    }
                    self.lemma_path_closed(p, desc@);
                }
            }
        }
        let mut r: Vec<u32> = Vec::new();
        let mut i: usize = 0;
        while i < full.len()
            invariant
                s == full@,
                i <= s.len(),
                forall|j: int| 0 <= j < s.len() ==> (desc@.contains(#[trigger] s[j])
                    <==> self.reaches(
                    root,
                    s[j],
                )),
                r@ == s.subrange(0, i as int).filter(self.descends(root)),
            decreases s.len() - i,
        {
            let n = full[i];
            proof {
                assert(s.subrange(0, i + 1) =~= s.subrange(0, i as int).push(n));
                s.subrange(0, i as int).lemma_filter_push(n, self.descends(root));
                assert(desc@.contains(s[i as int]) <==> self.reaches(root, s[i as int]));
            }
            if contains_id(&desc, n) {
                r.push(n);
            }
            i = i + 1;
        }
        assert(s.subrange(0, s.len() as int) =~= s);
        Ok(r)
    }
}

impl<N, P, W> Graph<N, P, W> {
    proof fn lemma_schedule_from(&self, done: Seq<u32>)
        requires
            self.wf(),
            self.valid_prefix(done),
            done.len() <= self.nodes@.len(),
        ensures
            self.valid_prefix(self.schedule_from(done)),
            self.schedule_from(done).len() <= self.nodes@.len(),
            self.schedule_from(done).len() < self.nodes@.len() ==> forall|n: u32|
                !self.ready(self.schedule_from(done), n),
        decreases self.nodes@.len() - done.len(),
    {
        let len = self.nodes@.len() as int;
        if done.len() < len {
            let i = self.last_ready(done, len);
            self.lemma_last_ready(done, len);
            if i >= 0 {
                let next = done.push(self.nodes@[i].0);
                self.lemma_valid_prefix_push(done, self.nodes@[i].0);
                self.lemma_valid_prefix_distinct(next);
                self.lemma_count(next);
                self.lemma_schedule_from(next);
            } else {
                assert forall|n: u32| !self.ready(done, n) by {
                    if self.ready(done, n) {
                        let j = self.pos(n);
                        assert(!self.ready(done, self.nodes@[j].0));
                    }
                }
            }
        }
    }

    /// The scheduler's order holds every node, each after the nodes that
    /// feed it, exactly when the graph has no cycle.
    pub proof fn lemma_schedule(&self)
        requires
            self.wf(),
        ensures
            self.acyclic() <==> self.is_topo_order(self.schedule()),
            self.acyclic() <==> self.schedule().len() == self.ids().len(),
            forall|n: u32| self.schedule().contains(n) ==> self.has_node(n),
            self.schedule().len() <= self.ids().len(),
            self.schedule().len() < self.ids().len() ==> forall|n: u32|
                !self.ready(self.schedule(), n),
            self.schedule().len() < self.ids().len() ==> exists|n: u32|
                self.has_node(n) && !self.schedule().contains(n),
    {
        let s = self.schedule();
        assert(self.valid_prefix(Seq::<u32>::empty()));
        self.lemma_schedule_from(Seq::<u32>::empty());
        self.lemma_valid_prefix_distinct(s);
        self.lemma_count(s);
        if s.len() == self.nodes@.len() {
            self.lemma_complete_is_topo(s);
        } else {
            self.lemma_stuck_is_cyclic(s);
        }
    }

    /// In an order that respects every edge, a node comes after all of its
    /// ancestors, not only after its parents.
    pub proof fn lemma_ancestors_first(&self, s: Seq<u32>, a: u32, b: u32)
        requires
            self.wf(),
            self.is_topo_order(s),
            self.reaches(a, b),
            a != b,
        ensures
            s.contains(a),
            s.contains(b),
            s.index_of(a) < s.index_of(b),
    {
        let p = choose|p: Seq<u32>| self.is_path(p) && p[0] == a && p.last() == b;
        self.lemma_path_ordered(s, p);
    }

    proof fn lemma_path_ordered(&self, s: Seq<u32>, p: Seq<u32>)
        requires
            self.wf(),
            self.is_topo_order(s),
            self.is_path(p),
            p[0] != p.last(),
        ensures
            s.contains(p[0]),
            s.contains(p.last()),
            s.index_of(p[0]) < s.index_of(p.last()),
        decreases p.len(),
    {
        let l = p.len() - 1;
        assert(l >= 1);
        assert(self.has_edge(p[l - 1], p[l]));
        let k = choose|k: int|
            0 <= k < self.edges@.len() && self.edges@[k].0.node == p[l - 1] && self.edges@[k].1.node
                == p[l];
        assert(s.contains(p[l - 1]) && s.contains(p[l]));
        let x = s.index_of(p[l - 1]);
        let y = s.index_of(p[l]);
        assert(0 <= x < s.len() && s[x] == p[l - 1]);
        assert(0 <= y < s.len() && s[y] == p[l]);
        assert(self.has_edge(s[x], s[y]));
        if l > 1 && p[0] != p[l - 1] {
            let q = p.drop_last();
            assert forall|i: int| 0 <= i < q.len() - 1 implies self.has_edge(#[trigger] q[i],
                q[i + 1]) by {
                assert(self.has_edge(p[i], p[i + 1]));
            }
            self.lemma_path_ordered(s, q);
        }
    }
}

/// The first position, up to `k`, of `t` whose element `pred` keeps.
proof fn first_where(t: Seq<u32>, pred: spec_fn(u32) -> bool, k: int) -> (j: int)
    requires
        0 <= k < t.len(),
        pred(t[k]),
    ensures
        0 <= j <= k,
        pred(t[j]),
        forall|m: int| 0 <= m < j ==> !pred(t[m]),
    decreases k,
{
    if exists|m: int| 0 <= m < k && pred(t[m]) {
        let m = choose|m: int| 0 <= m < k && pred(t[m]);
        first_where(t, pred, m)
    } else {
        k
    }
}

impl<N, P, W> Graph<N, P, W> {
    /// A nonempty set of nodes, each fed by an edge from the set, rules out
    /// every order that respects the edges.
    proof fn lemma_blocked_is_cyclic(&self, blocked: spec_fn(u32) -> bool)
        requires
            self.wf(),
            exists|n: u32| #[trigger] blocked(n),
            forall|n: u32| #[trigger] blocked(n) ==> self.has_node(n),
            forall|n: u32|
                #[trigger] blocked(n) ==> exists|k: int|
                    0 <= k < self.edges@.len() && #[trigger] self.edges@[k].1.node == n && blocked(
                        self.edges@[k].0.node,
                    ),
        ensures
            !self.acyclic(),
    {
        if self.acyclic() {
            let t = choose|t: Seq<u32>| self.is_topo_order(t);
            let u = choose|n: u32| #[trigger] blocked(n);
            assert(t.contains(u));
            let k = choose|k: int| 0 <= k < t.len() && t[k] == u;
            let j = first_where(t, blocked, k);
            let e = choose|e: int|
                0 <= e < self.edges@.len() && #[trigger] self.edges@[e].1.node == t[j] && blocked(
                    self.edges@[e].0.node,
                );
            let a = self.edges@[e].0.node;
            assert(t.contains(a));
            let m = choose|m: int| 0 <= m < t.len() && t[m] == a;
            assert(self.has_edge(t[m], t[j]));
        }
    }

    /// After `delete_node(id)`, no edge touches `id`, no order of the graph
    /// holds it, and the scheduler can fail only where the graph had a
    /// cycle before: deleting a node never leaves a dangling edge or a new
    /// cycle behind.
    #[verifier::rlimit(60)]
    pub proof fn lemma_delete_node_schedule(before: &Self, after: &Self, id: u32)
        requires
            before.wf(),
            after.wf(),
            forall|n: u32| after.has_node(n) <==> before.has_node(n) && n != id,
            after.edge_seq() == before.edge_seq().filter(avoiding(id)),
        ensures
            forall|k: int|
                0 <= k < after.edge_seq().len() ==> after.edge_seq()[k].0.node != id
                    && after.edge_seq()[k].1.node != id,
            !after.schedule().contains(id),
            forall|s: Seq<u32>| after.is_topo_order(s) ==> !s.contains(id),
            before.acyclic() ==> after.acyclic(),
    {
        after.lemma_schedule();
        let sa = after.schedule();
        assert(!after.has_node(id));
        if sa.contains(id) {
            assert(after.has_node(id));
        }
        if !after.acyclic() {
            let blocked = |n: u32| after.has_node(n) && !sa.contains(n);
            assert forall|n: u32| #[trigger] blocked(n) implies exists|k: int|
                0 <= k < before.edges@.len() && #[trigger] before.edges@[k].1.node == n && blocked(
                    before.edges@[k].0.node,
                ) by {
                assert(!after.ready(sa, n));
                let k = choose|k: int|
                    0 <= k < after.edges@.len() && #[trigger] after.edges@[k].1.node == n
                        && !sa.contains(after.edges@[k].0.node);
                let e = after.edges@[k];
                assert(after.edges@.contains(e));
                before.edges@.lemma_filter_contains_rev(avoiding(id), e);
                let m = choose|m: int| 0 <= m < before.edges@.len() && before.edges@[m] == e;
                assert(blocked(before.edges@[m].0.node));
            }
            let w = choose|n: u32| after.has_node(n) && !sa.contains(n);
            assert(blocked(w));
            before.lemma_blocked_is_cyclic(blocked);
        }
    }
}

/// `x` stands before `y` in `s`.
pub open spec fn precedes(s: Seq<u32>, x: u32, y: u32) -> bool {
    exists|a: int, b: int| 0 <= a < b < s.len() && s[a] == x && s[b] == y
}

/// Filtering keeps the relative order: two kept elements stand in the
/// original in the order they stand in the result.
proof fn lemma_filter_keeps_order(s: Seq<u32>, p: spec_fn(u32) -> bool)
    ensures
        forall|i: int, j: int|
            0 <= i < j < s.filter(p).len() ==> #[trigger] precedes(s, s.filter(p)[i], s.filter(p)[j]),
    decreases s.len(),
{
    reveal(Seq::filter);
    if s.len() > 0 {
        let s2 = s.drop_last();
        let f2 = s2.filter(p);
        let f = s.filter(p);
        lemma_filter_keeps_order(s2, p);
        assert forall|i: int, j: int| 0 <= i < j < f.len() implies #[trigger] precedes(s, f[i], f[j]) by {
            if j < f2.len() {
                assert(f[i] == f2[i] && f[j] == f2[j]);
                assert(precedes(s2, f2[i], f2[j]));
                let (a, b) = choose|a: int, b: int|
                    0 <= a < b < s2.len() && s2[a] == f2[i] && s2[b] == f2[j];
                assert(s[a] == s2[a] && s[b] == s2[b]);
            } else {
                assert(f[i] == f2[i]);
                assert(f2.contains(f2[i]));
                s2.lemma_filter_contains_rev(p, f2[i]);
                let a = choose|a: int| 0 <= a < s2.len() && s2[a] == f2[i];
                assert(s[a] == s2[a]);
                assert(s[s.len() - 1] == f[j]);
                assert(precedes(s, f[i], f[j]));
            }
        }
    }
}

impl<N, P, W> Graph<N, P, W> {
    /// What `subgraph_order(root)` returns is what `topological_sort`
    /// returns, restricted to `root` and its descendants: it holds exactly
    /// those nodes, and any two of them in the same relative order as the
    /// full order.
    pub proof fn lemma_subgraph_order_is_restriction(&self, root: u32)
        requires
            self.wf(),
        ensures
            forall|n: u32|
                self.schedule().filter(self.descends(root)).contains(n) <==> self.schedule().contains(n)
                    && self.reaches(root, n),
            forall|i: int, j: int|
                0 <= i < j < self.schedule().filter(self.descends(root)).len() ==> #[trigger] precedes(
                    self.schedule(),
                    self.schedule().filter(self.descends(root))[i],
                    self.schedule().filter(self.descends(root))[j],
                ),
    {
        let full = self.schedule();
        let pred = self.descends(root);
        lemma_filter_keeps_order(full, pred);
        assert forall|n: u32| full.filter(pred).contains(n) <==> full.contains(n) && self.reaches(root, n) by {
            if full.filter(pred).contains(n) {
                full.lemma_filter_contains_rev(pred, n);
                let k = choose|k: int| 0 <= k < full.filter(pred).len() && full.filter(pred)[k] == n;
                full.lemma_filter_pred(pred, k);
            }
            if full.contains(n) && self.reaches(root, n) {
                let k = choose|k: int| 0 <= k < full.len() && full[k] == n;
                full.lemma_filter_contains(pred, k);
            }
        }
    }
}

} // verus!
