use std::sync::Arc;
use vstd::prelude::*;

verus! {

/// Relies on `Arc::clone`: the new handle points to the same value.
#[verifier::external_body]
fn share_arc<W>(a: &Arc<W>) -> (r: Arc<W>)
    ensures
        r == *a,
{
    Arc::clone(a)
}

/// A computed value behind a shared handle. Sharing the handle shares the
/// value; the stamp tells instances apart, so that two handles to one stored
/// value can be told from two values that are merely equal.
///
/// Stamps are unique among the values that one store has held, and only
/// there: two separate stores (two graphs, or a graph and its clone) hand
/// out the same stamps, so handles are compared only when they come from
/// one store.
pub struct Wire<W> {
    stamp: u64,
    data: Arc<W>,
}

impl<W> Wire<W> {
    /// The identity of the value instance.
    pub closed spec fn id(&self) -> u64 {
        self.stamp
    }

    /// The value itself.
    pub closed spec fn val(&self) -> W {
        *self.data
    }

    pub fn value(&self) -> (r: &W)
        ensures
            *r == self.val(),
    {
        &*self.data
    }

    /// Another handle to the same instance.
    pub fn share(&self) -> (r: Wire<W>)
        ensures
            r == *self,
            r.id() == self.id(),
            r.val() == self.val(),
    {
        Wire { stamp: self.stamp, data: share_arc(&self.data) }
    }

    /// Whether two handles taken from one store refer to the same stored
    /// instance (not merely to equal values): whether their stamps agree.
    /// For handles from different stores the answer means nothing.
    pub fn alias_of(&self, other: &Wire<W>) -> (r: bool)
        ensures
            r == (self.id() == other.id()),
    {
        self.stamp == other.stamp
    }
}

/// Whether two handles taken from one store refer to the same stored
/// instance; see `Wire::alias_of`.
pub fn alias_of<W>(a: &Wire<W>, b: &Wire<W>) -> (r: bool)
    ensures
        r == (a.id() == b.id()),
{
    a.alias_of(b)
}

/// The values that nodes computed, keyed by (node id, output port name).
/// Each stored value has a stamp of its own.
pub struct WireStore<W> {
    entries: Vec<(u32, String, Wire<W>)>,
    next_stamp: u64,
}

/// The key of a stored value: a node id and an output port name.
pub type WireKey = (u32, Seq<char>);

impl<W> WireStore<W> {
    pub closed spec fn key_at(&self, i: int) -> WireKey {
        (self.entries@[i].0, self.entries@[i].1@)
    }

    /// No key is stored twice, no stamp is used twice, and every stamp is
    /// below the next one to hand out.
    pub closed spec fn wf(&self) -> bool {
        &&& forall|i: int, j: int|
            0 <= i < j < self.entries@.len() ==> self.key_at(i) != self.key_at(j)
        &&& forall|i: int, j: int|
            0 <= i < j < self.entries@.len() ==> self.entries@[i].2.id()
                != self.entries@[j].2.id()
        &&& forall|i: int| 0 <= i < self.entries@.len()
            ==> self.entries@[i].2.id() < self.next_stamp
    }

    /// The stamp that the next stored value will get.
    pub closed spec fn fresh(&self) -> u64 {
        self.next_stamp
    }

    /// The store as a map from key to (stamp, value).
    pub closed spec fn view(&self) -> Map<WireKey, (u64, W)> {
        Map::new(
            |k: WireKey| exists|i: int| 0 <= i < self.entries@.len() && self.key_at(i) == k,
            |k: WireKey|
                {
                    let i = choose|i: int| 0 <= i < self.entries@.len() && self.key_at(i) == k;
                    (self.entries@[i].2.id(), self.entries@[i].2.val())
                },
        )
    }

    proof fn lemma_view_at(&self, i: int)
        requires
            self.wf(),
            0 <= i < self.entries@.len(),
        ensures
            self.view().contains_key(self.key_at(i)),
            self.view()[self.key_at(i)] == (self.entries@[i].2.id(), self.entries@[i].2.val()),
    {
        let k = self.key_at(i);
        assert(self.view().contains_key(k));
        let j = choose|j: int| 0 <= j < self.entries@.len() && self.key_at(j) == k;
        if j != i {
            if j < i {
                assert(self.key_at(j) != self.key_at(i));
            } else {
                assert(self.key_at(i) != self.key_at(j));
            }
        }
    }

    /// Distinct keys hold distinct instances, and every stamp in the store is
    /// below the next one to hand out.
    pub proof fn lemma_stamps(&self)
        requires
            self.wf(),
        ensures
            forall|k1: WireKey, k2: WireKey|
                self.view().contains_key(k1) && self.view().contains_key(k2) && k1 != k2
                    ==> #[trigger] self.view()[k1].0 != #[trigger] self.view()[k2].0,
            forall|k: WireKey| #[trigger] self.view().contains_key(k)
                ==> self.view()[k].0 < self.fresh(),
    {
        assert forall|k1: WireKey, k2: WireKey|
            self.view().contains_key(k1) && self.view().contains_key(k2) && k1 != k2
                implies #[trigger] self.view()[k1].0 != #[trigger] self.view()[k2].0 by {
            let i = choose|i: int| 0 <= i < self.entries@.len() && self.key_at(i) == k1;
            let j = choose|j: int| 0 <= j < self.entries@.len() && self.key_at(j) == k2;
            self.lemma_view_at(i);
            self.lemma_view_at(j);
            assert(i != j);
        }
        assert forall|k: WireKey| #[trigger] self.view().contains_key(k) implies self.view()[k].0
            < self.fresh() by {
            let i = choose|i: int| 0 <= i < self.entries@.len() && self.key_at(i) == k;
            self.lemma_view_at(i);
        }
    }

    /// The stamp that the next stored value will get.
    pub fn fresh_stamp(&self) -> (r: u64)
        ensures
            r == self.fresh(),
    {
        self.next_stamp
    }

    pub fn new() -> (r: WireStore<W>)
        ensures
            r.wf(),
            r.view() == Map::<WireKey, (u64, W)>::empty(),
            r.fresh() == 0,
    {
        let r = WireStore { entries: Vec::new(), next_stamp: 0 };
        assert(r.view() =~= Map::<WireKey, (u64, W)>::empty());
        r
    }

    /// Index of the entry under `(node, port)`, if there is one.
    fn find(&self, node: u32, port: &String) -> (r: Option<usize>)
        requires
            self.wf(),
        ensures
            match r {
                Some(i) => i < self.entries@.len() && self.key_at(i as int) == (node, port@),
                None => !self.view().contains_key((node, port@)),
            },
    {
        let mut i: usize = 0;
        while i < self.entries.len()
            invariant
                i <= self.entries@.len(),
                forall|j: int| 0 <= j < i ==> self.key_at(j) != (node, port@),
            decreases self.entries@.len() - i,
        {
            if self.entries[i].0 == node && self.entries[i].1 == *port {
                return Some(i);
            }
            i = i + 1;
        }
        None
    }

    /// The value stored under `(node, port)`, as a new handle to it; `None`
    /// when nothing is stored there.
    pub fn get(&self, node: u32, port: &str) -> (r: Option<Wire<W>>)
        requires
            self.wf(),
        ensures
            match r {
                Some(w) => self.view().contains_key((node, port@)) && self.view()[(node, port@)]
                    == (w.id(), w.val()),
                None => !self.view().contains_key((node, port@)),
            },
    {
        let port = port.to_owned();
        match self.find(node, &port) {
            Some(i) => {
                proof {
                    self.lemma_view_at(i as int);
                }
                Some(self.entries[i].2.share())
            },
            None => None,
        }
    }

    /// Stores `value` under `(node, port)` with a fresh stamp, replacing
    /// what was there.
    pub fn put(&mut self, node: u32, port: &str, value: W)
        requires
            old(self).wf(),
            old(self).fresh() < u64::MAX,
        ensures
            final(self).wf(),
            final(self).view() == old(self).view().insert((node, port@), (old(self).fresh(),
                value)),
            final(self).fresh() == old(self).fresh() + 1,
    {
        let stamp = self.next_stamp;
        let w = Wire { stamp, data: Arc::new(value) };
        assert(w.id() == stamp && w.val() == value);
        let name = port.to_owned();
        let found = self.find(node, &name);
        let ghost old_store = *self;
        let ghost k = (node, port@);
        match found {
            Some(i) => {
                self.entries.set(i, (node, name, w));
                proof {
                    assert forall|j: int| 0 <= j < self.entries@.len() implies self.key_at(j)
                        == old_store.key_at(j) by {}
                }
            },
            None => {
                self.entries.push((node, name, w));
                proof {
                    assert forall|j: int| 0 <= j < old_store.entries@.len() implies self.key_at(j)
                        == old_store.key_at(j) && old_store.key_at(j) != k by {
                        if old_store.key_at(j) == k {
                            assert(old_store.view().contains_key(k));
                        }
                    }
                    assert(self.key_at(old_store.entries@.len() as int) == k);
                }
            },
        }
        self.next_stamp = stamp + 1;
        proof {
            let m = old_store.view().insert(k, (stamp, value));
            let pos: int = match found {
                Some(i) => i as int,
                None => old_store.entries@.len() as int,
            };
            assert(self.entries@[pos].2 == w);
            assert forall|j: int| 0 <= j < self.entries@.len() && j != pos implies self.entries@[j]
                == old_store.entries@[j] by {}
            assert forall|a: int, b: int| 0 <= a < b < self.entries@.len()
                implies self.entries@[a].2.id()
                != self.entries@[b].2.id() by {
                if a != pos && b != pos {
                    assert(old_store.entries@[a].2.id() != old_store.entries@[b].2.id());
                }
            }
            assert forall|a: int, b: int| 0 <= a < b < self.entries@.len() implies self.key_at(a)
                != self.key_at(b) by {
                if b == pos && found.is_none() {
                    assert(old_store.key_at(a) != k);
                } else {
                    assert(old_store.key_at(a) != old_store.key_at(b));
                }
            }
            assert forall|a: int| 0 <= a < self.entries@.len() implies self.entries@[a].2.id()
                < self.next_stamp by {
                if a != pos {
                    assert(old_store.entries@[a].2.id() < old_store.next_stamp);
                }
            }
            assert(self.wf());
            assert forall|kk: WireKey| #[trigger] self.view().contains_key(kk)
                <==> m.contains_key(kk) by {
                if old_store.view().contains_key(kk) {
                    let i = choose|i: int| 0 <= i < old_store.entries@.len()
                        && old_store.key_at(i) == kk;
                    assert(self.key_at(i) == kk);
                }
                if kk == k {
                    match found {
                        Some(i) => { assert(self.key_at(i as int) == kk); },
                        None => { assert(self.key_at(old_store.entries@.len() as int) == kk); },
                    }
                }
                if self.view().contains_key(kk) && kk != k {
                    let i = choose|i: int| 0 <= i < self.entries@.len() && self.key_at(i) == kk;
                    assert(old_store.key_at(i) == kk);
                }
            }
            assert forall|kk: WireKey| #[trigger] self.view().contains_key(kk)
                implies self.view()[kk]
                == m[kk] by {
                let i = choose|i: int| 0 <= i < self.entries@.len() && self.key_at(i) == kk;
                self.lemma_view_at(i);
                assert(self.key_at(pos) == k);
                if i == pos {
                    assert(kk == k);
                } else {
                    assert(self.key_at(i) != self.key_at(pos));
                    assert(kk != k);
                    assert(old_store.key_at(i) == kk);
                    old_store.lemma_view_at(i);
                }
            }
            assert(self.view() =~= m);
        }
    }

    /// Lets an empty store hand out stamps from `stamp` on.
    pub fn skip_to(&mut self, stamp: u64)
        requires
            old(self).wf(),
            old(self).view() == Map::<WireKey, (u64, W)>::empty(),
        ensures
            final(self).wf(),
            final(self).view() == Map::<WireKey, (u64, W)>::empty(),
            final(self).fresh() == stamp,
    {
        let ghost before = *self;
        assert(self.entries@.len() == 0) by {
            if self.entries@.len() > 0 {
                assert(self.view().contains_key(self.key_at(0)));
            }
        }
        self.next_stamp = stamp;
        assert(self.view() =~= Map::<WireKey, (u64, W)>::empty());
    }

    /// Drops every stored value. Stamps keep counting, so no later value
    /// shares a stamp with a handle given out before.
    pub fn clear(&mut self)
        requires
            old(self).wf(),
        ensures
            final(self).wf(),
            final(self).view() == Map::<WireKey, (u64, W)>::empty(),
            final(self).fresh() == old(self).fresh(),
    {
        self.entries = Vec::new();
        assert(self.view() =~= Map::<WireKey, (u64, W)>::empty());
    }

    /// Drops the values stored for the outputs of node `node`.
    pub fn drop_node(&mut self, node: u32)
        requires
            old(self).wf(),
        ensures
            final(self).wf(),
            forall|k: WireKey| #[trigger]
                final(self).view().contains_key(k) <==> old(self).view().contains_key(k) && k.0
                    != node,
            forall|k: WireKey| #[trigger]
                final(self).view().contains_key(k) ==> final(self).view()[k] == old(self).view()[k],
            final(self).fresh() == old(self).fresh(),
    {
        let ghost before = *self;
        let mut kept: Vec<(u32, String, Wire<W>)> = Vec::new();
        let ghost idx: Seq<int> = Seq::empty();
        let mut i: usize = 0;
        while i < self.entries.len()
            invariant
                *self == before,
                before.wf(),
                i <= self.entries@.len(),
                idx.len() == kept@.len(),
                forall|t: int| 0 <= t < idx.len() ==> 0 <= #[trigger] idx[t] < i && kept@[t]
                    == self.entries@[idx[t]],
                forall|t: int, u: int| 0 <= t < u < idx.len() ==> idx[t] < idx[u],
                forall|j: int|
                    0 <= j < i && self.entries@[j].0 != node ==> exists|t: int|
                        0 <= t < idx.len() && idx[t] == j,
                forall|t: int| 0 <= t < kept@.len() ==> (#[trigger] kept@[t]).0 != node,
            decreases self.entries@.len() - i,
        {
            if self.entries[i].0 != node {
                let e = (self.entries[i].0, self.entries[i].1.clone(), self.entries[i].2.share());
                kept.push(e);
                proof {
                    let old_idx = idx;
                    idx = idx.push(i as int);
                    assert(idx[idx.len() - 1] == i);
                    assert forall|j: int|
                        0 <= j < i + 1 && self.entries@[j].0 != node implies exists|t: int|
                            0 <= t < idx.len() && idx[t] == j by {
                        if j < i {
                            let t = choose|t: int| 0 <= t < old_idx.len() && old_idx[t] == j;
                            assert(idx[t] == j);
                        } else {
                            assert(idx[idx.len() - 1] == j);
                        }
                    }
                }
            }
            i = i + 1;
        }
        self.entries = kept;
        proof {
            assert forall|t: int| 0 <= t < self.entries@.len() implies self.key_at(t)
                == before.key_at(idx[t]) by {}
            assert forall|t: int, u: int| 0 <= t < u < self.entries@.len()
                implies self.key_at(t) != self.key_at(u)
                && self.entries@[t].2.id() != self.entries@[u].2.id() by {
                assert(before.key_at(idx[t]) != before.key_at(idx[u]));
                assert(before.entries@[idx[t]].2.id() != before.entries@[idx[u]].2.id());
            }
            assert forall|t: int| 0 <= t < self.entries@.len()
                implies self.entries@[t].2.id() < self.next_stamp by {
                assert(before.entries@[idx[t]].2.id() < before.next_stamp);
            }
            assert(self.next_stamp == before.next_stamp);
            assert(forall|i: int, j: int|
                0 <= i < j < self.entries@.len() ==> self.key_at(i) != self.key_at(j));
            assert forall|i: int, j: int|
                0 <= i < j < self.entries@.len()
                    implies self.entries@[i].2.id() != self.entries@[j].2.id() by {
                assert(idx[i] < idx[j]);
                assert(before.entries@[idx[i]].2.id() != before.entries@[idx[j]].2.id());
            }
            assert(self.wf());
            assert forall|k: WireKey| #[trigger] self.view().contains_key(k)
                <==> before.view().contains_key(k) && k.0 != node by {
                if self.view().contains_key(k) {
                    let t = choose|t: int| 0 <= t < self.entries@.len() && self.key_at(t) == k;
                    assert(before.key_at(idx[t]) == k);
                }
                if before.view().contains_key(k) && k.0 != node {
                    let j = choose|j: int| 0 <= j < before.entries@.len() && before.key_at(j) == k;
                    let t = choose|t: int| 0 <= t < idx.len() && idx[t] == j;
                    assert(self.key_at(t) == k);
                }
            }
            assert forall|k: WireKey| #[trigger] self.view().contains_key(k)
                implies self.view()[k] == before.view()[k] by {
                let t = choose|t: int| 0 <= t < self.entries@.len() && self.key_at(t) == k;
                self.lemma_view_at(t);
                before.lemma_view_at(idx[t]);
            }
        }
    }
}

} // verus!
