//! The cache of payloads and the dependency graph between them.
use vstd::prelude::*;
use std::collections::HashMap;

use crate::lazy::{LazyEvalError, LazyPayload, NodeId};
use crate::node_set::select_nodes;
use crate::reach::{is_walk, lemma_reaches_more_sources, reaches};

mod completion;
mod search;

verus! {

broadcast use vstd::std_specs::hash::group_hash_axioms;

/// The payloads of one value type, found by worker identity.
pub struct TypedCache {
    pub values: HashMap<u64, NodeId>,
}

impl TypedCache {
    pub fn new() -> (cache: Self)
        ensures
            cache.values@ == Map::<u64, NodeId>::empty(),
    {
        TypedCache { values: HashMap::new() }
    }
}

/// Every payload ever connected, with one typed cache per value type.
///
/// Payloads are never moved: a `NodeId` names the same payload for the cache's
/// whole life. Liveness follows reference counting: a payload stays alive while a handle,
/// a run or a tracker holds it or an alive payload read it, so payloads that read each
/// other in a cycle stay alive. A payload that is no longer alive drops its artifact and
/// the references it held at once and keeps its slot; a later request for the same worker
/// creates a fresh payload in a new slot.
///
/// Dependencies compare by worker identity, as payloads do: a run records one payload per
/// identity, and a rebuild updates reader lists only for the payloads whose identity it
/// added or dropped (see `readers_consistent`). Invalidation passes itself on to every
/// alive reader without remembering what it marked; on a cycle of readers it never ends,
/// so `invalidate` does not admit such a payload (see `invalidation_terminates`).
pub struct Cache<A, E> {
    pub payloads: Vec<LazyPayload<A, E>>,
    pub typed_caches: HashMap<u64, TypedCache>,
}

impl<A, E> Cache<A, E> {
    pub open spec fn len(&self) -> int {
        self.payloads@.len() as int
    }

    pub open spec fn node(&self, n: int) -> LazyPayload<A, E> {
        self.payloads@[n]
    }

    pub open spec fn deps(&self, n: int) -> Seq<NodeId> {
        self.payloads@[n].build_record.dependencies@
    }

    pub open spec fn rdeps(&self, n: int) -> Seq<NodeId> {
        self.payloads@[n].build_record.reverse_dependencies@
    }

    /// Edges from each payload to the payloads it read in its last build.
    pub open spec fn dep_graph(&self) -> Seq<Seq<NodeId>> {
        Seq::new(self.payloads@.len(), |i: int| self.deps(i))
    }

    /// Edges from each payload to the payloads that read it.
    pub open spec fn rdep_graph(&self) -> Seq<Seq<NodeId>> {
        Seq::new(self.payloads@.len(), |i: int| self.rdeps(i))
    }

    pub open spec fn graph(&self, reverse: bool) -> Seq<Seq<NodeId>> {
        if reverse {
            self.rdep_graph()
        } else {
            self.dep_graph()
        }
    }

    pub open spec fn everywhere(&self) -> Seq<bool> {
        Seq::new(self.payloads@.len(), |i: int| true)
    }

    pub open spec fn alive_mask(&self) -> Seq<bool> {
        Seq::new(self.payloads@.len(), |i: int| self.node(i).alive)
    }

    /// The payloads that read `from`, directly or through other payloads, following only
    /// edges into alive payloads.
    pub open spec fn reads_transitively(&self, from: NodeId, t: NodeId) -> bool {
        reaches(self.rdep_graph(), self.alive_mask(), |v: NodeId| v == from, t)
    }

    /// Some payload listed in `nodes` has the worker identity `identity`.
    pub open spec fn lists_identity(&self, nodes: Seq<NodeId>, identity: u64) -> bool {
        exists|i: int| 0 <= i < nodes.len() && #[trigger] self.node(nodes[i] as int).identity == identity
    }

    /// The payloads in `after` whose worker identity no payload in `before` has: what a new
    /// build reading `after` adds to a previous build that read `before`. Payloads compare
    /// by worker identity.
    pub open spec fn added_dependencies(&self, before: Seq<NodeId>, after: Seq<NodeId>) -> Set<NodeId> {
        after.to_set().filter(|d: NodeId| !self.lists_identity(before, self.node(d as int).identity))
    }

    /// The payloads in `before` whose worker identity no payload in `after` has: what a new
    /// build reading `after` drops from a previous build that read `before`.
    pub open spec fn removed_dependencies(&self, before: Seq<NodeId>, after: Seq<NodeId>) -> Set<NodeId> {
        self.added_dependencies(after, before)
    }

    /// An alive payload that invalidation, once it reaches it, reaches again: one of its
    /// alive readers reads it back, directly or transitively.
    pub open spec fn on_reader_cycle(&self, t: NodeId) -> bool {
        &&& (t as int) < self.len()
        &&& self.node(t as int).alive
        &&& exists|s: NodeId|
            #![trigger self.reads_transitively(s, t)]
            self.rdeps(t as int).contains(s) && self.node(s as int).alive && self.reads_transitively(s, t)
    }

    /// Invalidating `node`, which passes the invalidation on to every alive reader of each
    /// payload it marks without remembering what it marked, never ends: it reaches a
    /// payload on a cycle of readers.
    pub open spec fn invalidation_loops(&self, node: NodeId) -> bool {
        exists|t: NodeId| #[trigger] self.reads_transitively(node, t) && self.on_reader_cycle(t)
    }

    pub open spec fn ids_in_range(&self) -> bool {
        &&& self.len() <= usize::MAX
        &&& forall|n: int, j: int|
            0 <= n < self.len() && 0 <= j < self.deps(n).len() ==> (#[trigger] self.deps(n)[j] as int)
                < self.len()
        &&& forall|n: int, j: int|
            0 <= n < self.len() && 0 <= j < self.rdeps(n).len() ==> (#[trigger] self.rdeps(n)[j] as int)
                < self.len()
    }

    pub open spec fn edges_unique(&self) -> bool {
        forall|n: int|
            0 <= n < self.len() ==> (#[trigger] self.deps(n)).no_duplicates()
                && self.rdeps(n).no_duplicates()
    }

    /// Every alive payload is listed among the readers of each payload it read.
    pub open spec fn reverse_edges_mirror(&self) -> bool {
        forall|p: int, d: NodeId|
            0 <= p < self.len() && self.node(p).alive && #[trigger] self.deps(p).contains(d)
                ==> self.rdeps(d as int).contains(p as NodeId)
    }

    /// Every alive payload listed among the readers of a payload read it in its last build.
    pub open spec fn readers_are_dependents(&self) -> bool {
        forall|d: int, p: NodeId|
            0 <= d < self.len() && #[trigger] self.rdeps(d).contains(p) && (p as int) < self.len()
                && self.node(p as int).alive ==> self.deps(p as int).contains(d as NodeId)
    }

    /// Some alive payload read `v` in its last build, and so holds a reference to it.
    pub open spec fn read_by_alive(&self, v: NodeId) -> bool {
        exists|q: int| 0 <= q < self.len() && self.node(q).alive && #[trigger] self.deps(q).contains(v)
    }

    /// Alive payloads are those that reference counting has not freed: every held payload
    /// is alive, what an alive payload read is alive, and an alive payload is held or read
    /// by an alive payload.
    pub open spec fn liveness_counted(&self) -> bool {
        &&& forall|v: int| 0 <= v < self.len() && #[trigger] self.node(v).handles > 0 ==> self.node(v).alive
        &&& forall|p: int, d: NodeId|
            0 <= p < self.len() && self.node(p).alive && #[trigger] self.deps(p).contains(d) ==> self.node(
                d as int,
            ).alive
        &&& forall|v: int|
            0 <= v < self.len() && #[trigger] self.node(v).alive ==> self.node(v).handles > 0 || self.read_by_alive(
                v as NodeId,
            )
    }

    /// The alive payloads.
    pub open spec fn alive_set(&self) -> Set<NodeId> {
        Set::new(|v: NodeId| (v as int) < self.len() && self.node(v as int).alive)
    }

    /// Every member of `s` is a payload that is held or that a member of `s` read.
    pub open spec fn self_supporting(&self, s: Set<NodeId>) -> bool {
        forall|v: NodeId|
            #[trigger] s.contains(v) ==> (v as int) < self.len() && (self.node(v as int).handles > 0 || exists|q: NodeId|
                s.contains(q) && (q as int) < self.len() && #[trigger] self.deps(q as int).contains(v))
    }

    /// What reference counting leaves alive of the payloads in `before`: the largest part of
    /// it in which every payload is held or read by another payload of the part. A cycle of
    /// payloads that read each other keeps itself alive.
    pub open spec fn alive_is_largest_supported_in(&self, before: Set<NodeId>) -> bool {
        &&& self.alive_set().subset_of(before)
        &&& forall|s: Set<NodeId>| s.subset_of(before) && #[trigger] self.self_supporting(s) ==> s.subset_of(self.alive_set())
    }

    /// The typed caches point at payloads of the right type and identity, and every
    /// alive payload is the one its typed cache holds for its identity.
    pub open spec fn keys_consistent(&self) -> bool {
        &&& forall|tk: u64, id: u64|
            #![trigger self.typed_caches@[tk].values@[id]]
            self.typed_caches@.contains_key(tk) && self.typed_caches@[tk].values@.contains_key(id)
                ==> {
                let n = self.typed_caches@[tk].values@[id] as int;
                &&& 0 <= n < self.len()
                &&& self.node(n).type_key == tk
                &&& self.node(n).identity == id
            }
        &&& forall|n: int|
            0 <= n < self.len() && (#[trigger] self.node(n)).alive ==> {
                let tk = self.node(n).type_key;
                let id = self.node(n).identity;
                &&& self.typed_caches@.contains_key(tk)
                &&& self.typed_caches@[tk].values@.contains_key(id)
                &&& self.typed_caches@[tk].values@[id] == n
            }
    }

    /// The reader lists mirror the dependencies of the alive payloads. Every operation keeps
    /// this, except a build that reads a payload whose worker has the identity of a
    /// different payload that the previous build read: reader lists are updated by worker
    /// identity, so neither of the two learns of the change.
    pub open spec fn readers_consistent(&self) -> bool {
        &&& self.reverse_edges_mirror()
        &&& self.readers_are_dependents()
    }

    pub open spec fn wf(&self) -> bool {
        &&& self.ids_in_range()
        &&& self.edges_unique()
        &&& self.liveness_counted()
        &&& self.keys_consistent()
    }

    /// An empty cache.
    pub fn create() -> (cache: Self)
        ensures
            cache.wf(),
            cache.payloads@.len() == 0,
            cache.typed_caches@ == Map::<u64, TypedCache>::empty(),
    {
        Cache { payloads: Vec::new(), typed_caches: HashMap::new() }
    }

    /// The payload that the typed cache of `type_key` holds for `identity`, if any.
    pub open spec fn entry(&self, type_key: u64, identity: u64) -> Option<NodeId> {
        if self.typed_caches@.contains_key(type_key) && self.typed_caches@[type_key].values@.contains_key(
            identity,
        ) {
            Some(self.typed_caches@[type_key].values@[identity])
        } else {
            None
        }
    }

    /// The alive payload that the typed cache of `type_key` holds for `identity`, if any.
    pub open spec fn live_entry(&self, type_key: u64, identity: u64) -> Option<NodeId> {
        if self.typed_caches@.contains_key(type_key) && self.typed_caches@[type_key].values@.contains_key(
            identity,
        ) && self.node(self.typed_caches@[type_key].values@[identity] as int).alive {
            Some(self.typed_caches@[type_key].values@[identity])
        } else {
            None
        }
    }

    /// The number of payloads ever connected.
    pub fn num_payloads(&self) -> (n: usize)
        ensures
            n == self.len(),
    {
        self.payloads.len()
    }

    /// The alive payload that the typed cache of `type_key` holds for `identity`, if any.
    fn find_live(&self, type_key: u64, identity: u64) -> (found: Option<NodeId>)
        requires
            self.wf(),
        ensures
            found == self.live_entry(type_key, identity),
    {
        match self.typed_caches.get(&type_key) {
            Some(typed) => match typed.values.get(&identity) {
                Some(node) => {
                    let node = *node;
                    proof {
                        assert(self.typed_caches@[type_key].values@[identity] == node);
                    }
                    if self.payloads[node].alive {
                        Some(node)
                    } else {
                        None
                    }
                },
                None => None,
            },
            None => None,
        }
    }

    /// Takes one more strong reference to an alive payload (cloning a connected handle).
    pub fn acquire(&mut self, node: NodeId)
        requires
            old(self).wf(),
            (node as int) < old(self).len(),
            old(self).node(node as int).alive,
            old(self).node(node as int).handles < u64::MAX,
        ensures
            final(self).wf(),
            old(self).readers_consistent() ==> final(self).readers_consistent(),
            final(self).payloads@ == old(self).payloads@.update(
                node as int,
                old(self).node(node as int).with_handles((old(self).node(node as int).handles + 1) as u64),
            ),
            final(self).typed_caches@ == old(self).typed_caches@,
    {
        let ghost pre = *self;
        let h = self.payloads[node].handles;
        self.payloads[node].handles = h + 1;
        proof {
            assert(self.payloads@ =~= pre.payloads@.update(
                node as int,
                pre.node(node as int).with_handles((h + 1) as u64),
            ));
            self.lemma_gained_handle(&pre, node);
        }
    }

    /// Readers stay dependents when the old payloads keep their edges, nothing comes alive,
    /// and the payloads added have no readers.
    proof fn lemma_readers_carry_over(&self, pre: &Self)
        requires
            pre.wf(),
            pre.readers_consistent(),
            pre.len() <= self.len(),
            forall|k: int| 0 <= k < pre.len() ==> {
                &&& #[trigger] self.deps(k) == pre.deps(k)
                &&& self.rdeps(k) == pre.rdeps(k)
                &&& (self.node(k).alive ==> pre.node(k).alive)
            },
            forall|k: int| pre.len() <= k < self.len() ==> (#[trigger] self.rdeps(k)).len() == 0,
        ensures
            self.readers_are_dependents(),
    {
        assert forall|d: int, p: NodeId|
            0 <= d < self.len() && #[trigger] self.rdeps(d).contains(p) && (p as int) < self.len()
                && self.node(p as int).alive implies self.deps(p as int).contains(d as NodeId) by {
            if d < pre.len() {
                assert(self.deps(d) == pre.deps(d));
                assert(pre.rdeps(d).contains(p));
                let j = choose|j: int| 0 <= j < pre.rdeps(d).len() && pre.rdeps(d)[j] == p;
                assert((pre.rdeps(d)[j] as int) < pre.len());
                assert(self.deps(p as int) == pre.deps(p as int));
                assert(pre.node(p as int).alive);
            } else {
                assert(self.rdeps(d).len() == 0);
            }
        }
    }

    /// Raising the handle count of an alive payload changes nothing else.
    proof fn lemma_gained_handle(&self, pre: &Self, node: NodeId)
        requires
            pre.wf(),
            (node as int) < pre.len(),
            pre.node(node as int).alive,
            self.typed_caches@ == pre.typed_caches@,
            self.payloads@.len() == pre.payloads@.len(),
            forall|k: int| 0 <= k < pre.len() && k != node ==> self.payloads@[k] == pre.payloads@[k],
            self.node(node as int).handles > 0,
            self.node(node as int) == pre.node(node as int).with_handles(self.node(node as int).handles),
        ensures
            self.wf(),
            pre.readers_consistent() ==> self.readers_consistent(),
    {
        assert(self.dep_graph() =~= pre.dep_graph()) by {
            assert forall|k: int| 0 <= k < pre.len() implies self.dep_graph()[k] == pre.dep_graph()[k] by {
                if k != node {
                    assert(self.payloads@[k] == pre.payloads@[k]);
                }
            }
        }
        assert(self.everywhere() =~= pre.everywhere());
        assert(self.alive_mask() =~= pre.alive_mask()) by {
            assert forall|k: int| 0 <= k < pre.len() implies self.alive_mask()[k] == pre.alive_mask()[k] by {
                if k != node {
                    assert(self.payloads@[k] == pre.payloads@[k]);
                }
            }
        }
        assert forall|k: int| 0 <= k < self.len() implies #[trigger] self.deps(k) == pre.deps(k) && self.rdeps(k)
            == pre.rdeps(k) && self.node(k).alive == pre.node(k).alive && self.node(k).type_key
            == pre.node(k).type_key && self.node(k).identity == pre.node(k).identity by {
            if k != node {
                assert(self.payloads@[k] == pre.payloads@[k]);
            }
        }
        self.lemma_same_shape(pre);
        if pre.readers_consistent() {
            self.lemma_readers_carry_over(pre);
        }
        if pre.readers_consistent() {
            assert forall|p: int, d: NodeId|
                0 <= p < self.len() && self.node(p).alive && #[trigger] self.deps(p).contains(d)
                implies self.rdeps(d as int).contains(p as NodeId) by {
                assert(self.deps(p) == pre.deps(p));
                assert(pre.deps(p).contains(d));
                assert(pre.deps(p).contains(d) ==> (d as int) < pre.len()) by {
                    if pre.deps(p).contains(d) {
                        let j = choose|j: int| 0 <= j < pre.deps(p).len() && pre.deps(p)[j] == d;
                        assert((pre.deps(p)[j] as int) < pre.len());
                    }
                }
                assert(self.rdeps(d as int) == pre.rdeps(d as int));
            }
        }
        assert forall|tk: u64, id: u64|
            #![trigger self.typed_caches@[tk].values@[id]]
            self.typed_caches@.contains_key(tk) && self.typed_caches@[tk].values@.contains_key(id)
            implies {
                let n = self.typed_caches@[tk].values@[id] as int;
                &&& 0 <= n < self.len()
                &&& self.node(n).type_key == tk
                &&& self.node(n).identity == id
            } by {
            let n = pre.typed_caches@[tk].values@[id] as int;
            assert(self.deps(n) == pre.deps(n));
        }
        assert forall|n: int| 0 <= n < self.len() && (#[trigger] self.node(n)).alive implies {
            let tk = self.node(n).type_key;
            let id = self.node(n).identity;
            &&& self.typed_caches@.contains_key(tk)
            &&& self.typed_caches@[tk].values@.contains_key(id)
            &&& self.typed_caches@[tk].values@[id] == n
        } by {
            assert(self.deps(n) == pre.deps(n));
            assert(pre.node(n).alive);
        }
        assert forall|k: int| 0 <= k < self.len() && #[trigger] self.node(k).handles > 0 implies self.node(k).alive by {
            assert(self.deps(k) == pre.deps(k));
            if k != node {
                assert(pre.node(k).handles > 0);
            }
        }
        self.lemma_counted_carry_over(pre);
    }

    /// Drops the artifact and the dependencies (the references it held) of every payload
    /// that is no longer alive; nothing else changes.
    fn drop_dead_build_records(&mut self)
        requires
            old(self).wf(),
        ensures
            final(self).wf(),
            old(self).readers_consistent() ==> final(self).readers_consistent(),
            final(self).payloads@.len() == old(self).payloads@.len(),
            final(self).typed_caches@ == old(self).typed_caches@,
            forall|k: int| 0 <= k < old(self).len() ==> {
                &&& (#[trigger] final(self).payloads@[k]).settled_from(&old(self).payloads@[k])
                &&& final(self).payloads@[k].alive == old(self).payloads@[k].alive
            },
            final(self).alive_mask() == old(self).alive_mask(),
            forall|from: NodeId, t: NodeId| #[trigger] final(self).reads_transitively(from, t) == old(self).reads_transitively(from, t),
            forall|node: NodeId| #[trigger] final(self).invalidation_loops(node) == old(self).invalidation_loops(node),
            final(self).alive_set() == old(self).alive_set(),
            forall|st: Set<NodeId>| #[trigger] final(self).self_supporting(st) ==> old(self).self_supporting(st),
    {
        let ghost pre = *self;
        let n = self.payloads.len();
        for i in 0..n
            invariant
                n == pre.len(),
                self.payloads@.len() == n,
                self.typed_caches@ == pre.typed_caches@,
                forall|k: int| 0 <= k < i ==> {
                    &&& (#[trigger] self.payloads@[k]).settled_from(&pre.payloads@[k])
                    &&& self.payloads@[k].alive == pre.payloads@[k].alive
                },
                forall|k: int| i <= k < n ==> #[trigger] self.payloads@[k] == pre.payloads@[k],
        {
            if !self.payloads[i].alive {
                self.payloads[i].build_record.artifact = None;
                self.payloads[i].build_record.dependencies = Vec::new();
            }
        }
        proof {
            self.lemma_dropped_records_wf(&pre);
            self.lemma_dropped_records_reads(&pre);
            assert forall|k: int| 0 <= k < pre.len() && pre.node(k).alive implies #[trigger] self.rdeps(k) == pre.rdeps(k) by {
                assert(self.payloads@[k].settled_from(&pre.payloads@[k]));
            }
            self.lemma_same_loops(&pre);
            assert(self.alive_set() =~= pre.alive_set());
            assert forall|st: Set<NodeId>| #[trigger] self.self_supporting(st) implies pre.self_supporting(st) by {
                assert forall|v: NodeId| #[trigger] st.contains(v) implies (v as int) < pre.len() && (pre.node(v as int).handles
                    > 0 || exists|q: NodeId| st.contains(q) && (q as int) < pre.len() && #[trigger] pre.deps(q as int).contains(v)) by {
                    assert(self.payloads@[v as int].settled_from(&pre.payloads@[v as int]));
                    if pre.node(v as int).handles == 0 {
                        let q = choose|q: NodeId| st.contains(q) && (q as int) < self.len() && #[trigger] self.deps(q as int).contains(v);
                        assert(self.payloads@[q as int].settled_from(&pre.payloads@[q as int]));
                        assert(self.node(q as int).alive);
                        assert(pre.deps(q as int).contains(v));
                    }
                }
            }
        }
    }

    /// Whether an invalidation loops depends only on liveness, on the readers of alive
    /// payloads and on which payloads read which.
    proof fn lemma_same_loops(&self, pre: &Self)
        requires
            pre.ids_in_range(),
            self.payloads@.len() == pre.payloads@.len(),
            self.alive_mask() == pre.alive_mask(),
            forall|k: int| 0 <= k < pre.len() && pre.node(k).alive ==> #[trigger] self.rdeps(k) == pre.rdeps(k),
            forall|from: NodeId, t: NodeId| #[trigger] self.reads_transitively(from, t) == pre.reads_transitively(from, t),
        ensures
            forall|node: NodeId| #[trigger] self.invalidation_loops(node) == pre.invalidation_loops(node),
    {
        assert forall|t: NodeId| #[trigger] self.on_reader_cycle(t) == pre.on_reader_cycle(t) by {
            if (t as int) < pre.len() {
                assert(self.alive_mask()[t as int] == pre.alive_mask()[t as int]);
                assert(self.alive_mask()[t as int] == self.node(t as int).alive);
                assert(pre.alive_mask()[t as int] == pre.node(t as int).alive);
                if pre.node(t as int).alive {
                    assert(self.rdeps(t as int) == pre.rdeps(t as int));
                    assert forall|s: NodeId| self.rdeps(t as int).contains(s) implies (self.node(s as int).alive
                        == pre.node(s as int).alive) by {
                        let j = choose|j: int| 0 <= j < self.rdeps(t as int).len() && self.rdeps(t as int)[j] == s;
                        assert(pre.rdeps(t as int)[j] == s);
                        assert((pre.rdeps(t as int)[j] as int) < pre.len());
                        assert(self.alive_mask()[s as int] == pre.alive_mask()[s as int]);
                        assert(self.alive_mask()[s as int] == self.node(s as int).alive);
                        assert(pre.alive_mask()[s as int] == pre.node(s as int).alive);
                    }
                    if self.on_reader_cycle(t) {
                        let s = choose|s: NodeId|
                            #![trigger self.reads_transitively(s, t)]
                            self.rdeps(t as int).contains(s) && self.node(s as int).alive && self.reads_transitively(s, t);
                        assert(pre.rdeps(t as int).contains(s) && pre.node(s as int).alive && pre.reads_transitively(s, t));
                    }
                    if pre.on_reader_cycle(t) {
                        let s = choose|s: NodeId|
                            #![trigger pre.reads_transitively(s, t)]
                            pre.rdeps(t as int).contains(s) && pre.node(s as int).alive && pre.reads_transitively(s, t);
                        assert(self.rdeps(t as int).contains(s) && self.node(s as int).alive && self.reads_transitively(s, t));
                    }
                }
            }
        }
        assert forall|node: NodeId| #[trigger] self.invalidation_loops(node) == pre.invalidation_loops(node) by {
            if self.invalidation_loops(node) {
                let t = choose|t: NodeId| #[trigger] self.reads_transitively(node, t) && self.on_reader_cycle(t);
                assert(pre.reads_transitively(node, t) && pre.on_reader_cycle(t));
            }
            if pre.invalidation_loops(node) {
                let t = choose|t: NodeId| #[trigger] pre.reads_transitively(node, t) && pre.on_reader_cycle(t);
                assert(self.reads_transitively(node, t) && self.on_reader_cycle(t));
            }
        }
    }

    /// Dropping the artifacts and dependencies of payloads that are not alive changes no
    /// invalidation: reader edges and liveness stay as they were.
    proof fn lemma_dropped_records_reads(&self, pre: &Self)
        requires
            pre.wf(),
            self.payloads@.len() == pre.payloads@.len(),
            forall|k: int| 0 <= k < pre.len() ==> {
                &&& (#[trigger] self.payloads@[k]).settled_from(&pre.payloads@[k])
                &&& self.payloads@[k].alive == pre.payloads@[k].alive
            },
        ensures
            forall|from: NodeId, t: NodeId| #[trigger] self.reads_transitively(from, t) == pre.reads_transitively(from, t),
    {
        assert forall|k: int| 0 <= k < pre.len() implies #[trigger] self.rdeps(k) == pre.rdeps(k)
            && self.node(k).alive == pre.node(k).alive by {
            assert(self.payloads@[k].settled_from(&pre.payloads@[k]));
        }
        assert(self.alive_mask() =~= pre.alive_mask()) by {
            assert forall|k: int| 0 <= k < pre.len() implies self.alive_mask()[k] == pre.alive_mask()[k] by {
                assert(self.rdeps(k) == pre.rdeps(k));
            }
        }
        assert(self.rdep_graph() =~= pre.rdep_graph()) by {
            assert forall|k: int| 0 <= k < pre.len() implies self.rdep_graph()[k] == pre.rdep_graph()[k] by {
                assert(self.rdeps(k) == pre.rdeps(k));
            }
        }

    }

    /// Dropping the artifacts and dependencies of payloads that are not alive keeps the
    /// invariant: only alive payloads hold references.
    proof fn lemma_dropped_records_wf(&self, pre: &Self)
        requires
            pre.wf(),
            self.payloads@.len() == pre.payloads@.len(),
            self.typed_caches@ == pre.typed_caches@,
            forall|k: int| 0 <= k < pre.len() ==> {
                &&& (#[trigger] self.payloads@[k]).settled_from(&pre.payloads@[k])
                &&& self.payloads@[k].alive == pre.payloads@[k].alive
            },
        ensures
            self.wf(),
            pre.readers_consistent() ==> self.readers_consistent(),
            self.alive_mask() == pre.alive_mask(),
    {
        assert forall|k: int| 0 <= k < pre.len() implies {
            &&& #[trigger] self.deps(k) == (if pre.node(k).alive { pre.deps(k) } else { Seq::<NodeId>::empty() })
            &&& self.rdeps(k) == pre.rdeps(k)
            &&& self.node(k).alive == pre.node(k).alive
            &&& self.node(k).handles == pre.node(k).handles
            &&& self.node(k).identity == pre.node(k).identity
            &&& self.node(k).type_key == pre.node(k).type_key
        } by {
            assert(self.payloads@[k].settled_from(&pre.payloads@[k]));
        }
        assert(self.alive_mask() =~= pre.alive_mask()) by {
            assert forall|k: int| 0 <= k < pre.len() implies self.alive_mask()[k] == pre.alive_mask()[k] by {
                assert(self.deps(k) == (if pre.node(k).alive { pre.deps(k) } else { Seq::<NodeId>::empty() }));
            }
        }
        assert(self.everywhere() =~= pre.everywhere());
        // ids_in_range and edges_unique
        assert forall|n: int, j: int| 0 <= n < self.len() && 0 <= j < self.deps(n).len() implies (
        #[trigger] self.deps(n)[j] as int) < self.len() by {
            assert(self.deps(n) == (if pre.node(n).alive { pre.deps(n) } else { Seq::<NodeId>::empty() }));
        }
        assert forall|n: int, j: int| 0 <= n < self.len() && 0 <= j < self.rdeps(n).len() implies (
        #[trigger] self.rdeps(n)[j] as int) < self.len() by {
            assert(self.deps(n) == (if pre.node(n).alive { pre.deps(n) } else { Seq::<NodeId>::empty() }));
        }
        assert forall|n: int| 0 <= n < self.len() implies (#[trigger] self.deps(n)).no_duplicates()
            && self.rdeps(n).no_duplicates() by {
            assert(self.deps(n) == (if pre.node(n).alive { pre.deps(n) } else { Seq::<NodeId>::empty() }));
            assert(pre.deps(n).no_duplicates() && pre.rdeps(n).no_duplicates());
        }
        // the mirrors
        if pre.readers_consistent() {
            assert forall|p: int, d: NodeId|
                0 <= p < self.len() && self.node(p).alive && #[trigger] self.deps(p).contains(d)
                implies self.rdeps(d as int).contains(p as NodeId) by {
                assert(self.deps(p) == pre.deps(p));
                let j = choose|j: int| 0 <= j < pre.deps(p).len() && pre.deps(p)[j] == d;
                assert((pre.deps(p)[j] as int) < pre.len());
                pre.lemma_dependency_alive(p as NodeId, d);
                assert(self.deps(d as int) == pre.deps(d as int));
            }
        }
        if pre.readers_consistent() {
            assert forall|d: int, p: NodeId|
                0 <= d < self.len() && #[trigger] self.rdeps(d).contains(p) && (p as int) < self.len()
                    && self.node(p as int).alive implies self.deps(p as int).contains(d as NodeId) by {
                assert(self.deps(d) == (if pre.node(d).alive { pre.deps(d) } else { Seq::<NodeId>::empty() }));
                assert(pre.rdeps(d).contains(p));
                assert(self.deps(p as int) == pre.deps(p as int));
            }
        }
        // liveness: freeing edges out of payloads that are not alive keeps the count
        assert forall|k: int| 0 <= k < pre.len() && #[trigger] self.node(k).handles > 0 implies self.node(k).alive by {
            assert(self.deps(k) == (if pre.node(k).alive { pre.deps(k) } else { Seq::<NodeId>::empty() }));
            pre.lemma_held_reached(k as NodeId);
        }
        self.lemma_counted_carry_over(pre);
        // the typed caches
        assert forall|tk: u64, id: u64|
            #![trigger self.typed_caches@[tk].values@[id]]
            self.typed_caches@.contains_key(tk) && self.typed_caches@[tk].values@.contains_key(id)
            implies {
                let n = self.typed_caches@[tk].values@[id] as int;
                &&& 0 <= n < self.len()
                &&& self.node(n).type_key == tk
                &&& self.node(n).identity == id
            } by {
            let n = pre.typed_caches@[tk].values@[id] as int;
            assert(self.deps(n) == (if pre.node(n).alive { pre.deps(n) } else { Seq::<NodeId>::empty() }));
        }
        assert forall|n: int| 0 <= n < self.len() && (#[trigger] self.node(n)).alive implies {
            let tk = self.node(n).type_key;
            let id = self.node(n).identity;
            &&& self.typed_caches@.contains_key(tk)
            &&& self.typed_caches@[tk].values@.contains_key(id)
            &&& self.typed_caches@[tk].values@[id] == n
        } by {
            assert(self.deps(n) == (if pre.node(n).alive { pre.deps(n) } else { Seq::<NodeId>::empty() }));
            assert(pre.node(n).alive);
        }
    }

    /// Drops one strong reference to a payload (dropping a connected handle or finishing a
    /// run). Reference counting then frees every payload that is neither held nor read by a
    /// payload left alive; freed payloads drop their artifacts and dependencies.
    pub fn release(&mut self, node: NodeId)
        requires
            old(self).wf(),
            (node as int) < old(self).len(),
            old(self).node(node as int).handles > 0,
        ensures
            final(self).wf(),
            old(self).readers_consistent() ==> final(self).readers_consistent(),
            final(self).payloads@.len() == old(self).payloads@.len(),
            forall|k: int|
                0 <= k < old(self).len() && k != node ==> (#[trigger] final(self).payloads@[k]).settled_from(
                    &old(self).payloads@[k],
                ),
            final(self).node(node as int).settled_from(
                &old(self).node(node as int).with_handles((old(self).node(node as int).handles - 1) as u64),
            ),
            forall|k: int| 0 <= k < old(self).len() && #[trigger] final(self).node(k).alive ==> old(self).node(k).alive,
            final(self).alive_is_largest_supported_in(old(self).alive_set()),
            final(self).typed_caches@ == old(self).typed_caches@,
    {
        let ghost pre = *self;
        let h = self.payloads[node].handles;
        self.payloads[node].handles = h - 1;
        let ghost mid = *self;
        proof {
            assert forall|k: int| 0 <= k < self.len() implies #[trigger] self.deps(k) == pre.deps(k) && self.rdeps(k)
                == pre.rdeps(k) by {
                if k != node {
                    assert(self.payloads@[k] == pre.payloads@[k]);
                }
            }
        }
        proof {
            self.lemma_same_shape(&pre);
            assert forall|v: int| 0 <= v < self.len() && #[trigger] self.node(v).handles > 0 implies self.node(v).alive by {
                if v != node {
                    assert(self.payloads@[v] == pre.payloads@[v]);
                }
                assert(pre.node(v).handles > 0);
                pre.lemma_held_reached(v as NodeId);
            }
            assert forall|p: int, d: NodeId|
                0 <= p < self.len() && self.node(p).alive && #[trigger] self.deps(p).contains(d) implies self.node(
                    d as int,
                ).alive by {
                assert(pre.node(p).alive);
                assert(pre.deps(p).contains(d));
                let j = choose|j: int| 0 <= j < pre.deps(p).len() && pre.deps(p)[j] == d;
                assert((pre.deps(p)[j] as int) < pre.len());
                if d != node {
                    assert(self.payloads@[d as int] == pre.payloads@[d as int]);
                }
            }
        }
        self.settle_liveness();
        proof {
            assert forall|k: int| 0 <= k < self.len() && #[trigger] self.node(k).alive implies pre.node(k).alive by {
                assert(self.alive_set().contains(k as NodeId));
                assert(mid.alive_set().contains(k as NodeId));
                if k != node {
                    assert(mid.payloads@[k] == pre.payloads@[k]);
                }
            }
            assert(self.dep_graph() =~= pre.dep_graph()) by {
                assert forall|k: int| 0 <= k < pre.len() implies self.dep_graph()[k] == pre.dep_graph()[k] by {
                    assert(self.payloads@[k].same_but_liveness(&mid.payloads@[k]));
                    assert(mid.deps(k) == pre.deps(k));
                }
            }
            assert(self.everywhere() =~= pre.everywhere());
            assert forall|k: int| 0 <= k < self.len() implies #[trigger] self.deps(k) == pre.deps(k) && self.rdeps(k)
                == pre.rdeps(k) && self.node(k).type_key == pre.node(k).type_key && self.node(k).identity
                == pre.node(k).identity by {
                assert(self.payloads@[k].same_but_liveness(&mid.payloads@[k]));
                if k != node {
                    assert(mid.payloads@[k] == pre.payloads@[k]);
                }
            }
            assert forall|k: int|
                0 <= k < pre.len() && k != node implies (#[trigger] self.payloads@[k]).same_but_liveness(
                    &pre.payloads@[k],
                ) by {
                assert(self.payloads@[k].same_but_liveness(&mid.payloads@[k]));
                assert(mid.payloads@[k] == pre.payloads@[k]);
            }
            assert(self.payloads@[node as int].same_but_liveness(&mid.payloads@[node as int]));
            if pre.readers_consistent() {
                assert forall|p: int, d: NodeId|
                    0 <= p < self.len() && self.node(p).alive && #[trigger] self.deps(p).contains(d)
                    implies self.rdeps(d as int).contains(p as NodeId) by {
                    assert(pre.node(p).alive);
                    assert(pre.deps(p).contains(d));
                    let j = choose|j: int| 0 <= j < pre.deps(p).len() && pre.deps(p)[j] == d;
                    assert((pre.deps(p)[j] as int) < pre.len());
                }
            }
            assert forall|k: int| 0 <= k < pre.len() implies {
                &&& #[trigger] self.deps(k) == pre.deps(k)
                &&& self.rdeps(k) == pre.rdeps(k)
                &&& (self.node(k).alive ==> pre.node(k).alive)
            } by {
                if self.node(k).alive {
                    assert(pre.alive_mask()[k]);
                }
            }
            if pre.readers_consistent() {
                self.lemma_readers_carry_over(&pre);
            }
            assert forall|tk: u64, id: u64|
                #![trigger self.typed_caches@[tk].values@[id]]
                self.typed_caches@.contains_key(tk) && self.typed_caches@[tk].values@.contains_key(id)
                implies {
                    let n = self.typed_caches@[tk].values@[id] as int;
                    &&& 0 <= n < self.len()
                    &&& self.node(n).type_key == tk
                    &&& self.node(n).identity == id
                } by {
                let n = pre.typed_caches@[tk].values@[id] as int;
                assert(self.deps(n) == pre.deps(n));
            }
            assert forall|n: int| 0 <= n < self.len() && (#[trigger] self.node(n)).alive implies {
                let tk = self.node(n).type_key;
                let id = self.node(n).identity;
                &&& self.typed_caches@.contains_key(tk)
                &&& self.typed_caches@[tk].values@.contains_key(id)
                &&& self.typed_caches@[tk].values@[id] == n
            } by {
                assert(pre.alive_mask()[n]);
                assert(pre.node(n).alive);
                assert(self.deps(n) == pre.deps(n));
            }
        }
        let ghost settled = *self;
        self.drop_dead_build_records();
        proof {
            assert forall|k: int| 0 <= k < pre.len() && k != node implies (#[trigger] self.payloads@[k]).settled_from(
                &pre.payloads@[k],
            ) by {
                assert(self.payloads@[k].settled_from(&settled.payloads@[k]));
                assert(settled.payloads@[k].same_but_liveness(&pre.payloads@[k]));
            }
            assert(self.payloads@[node as int].settled_from(&settled.payloads@[node as int]));
            assert(settled.payloads@[node as int].same_but_liveness(&mid.payloads@[node as int]));
            assert forall|k: int| 0 <= k < pre.len() && #[trigger] self.node(k).alive implies pre.node(k).alive by {
                assert(self.payloads@[k].alive == settled.payloads@[k].alive);
            }
            assert(mid.alive_set() =~= pre.alive_set()) by {
                assert forall|v: NodeId| mid.alive_set().contains(v) == pre.alive_set().contains(v) by {
                    if (v as int) < pre.len() && v != node {
                        assert(mid.payloads@[v as int] == pre.payloads@[v as int]);
                    }
                }
            }
            assert forall|st: Set<NodeId>| st.subset_of(pre.alive_set()) && #[trigger] self.self_supporting(st) implies st.subset_of(
                self.alive_set(),
            ) by {
                assert(settled.self_supporting(st));
            }
        }
    }

    /// The payload for the worker with `identity` whose value has type `type_key`, with one
    /// more strong reference for the caller. An alive payload already cached for that key
    /// is returned; otherwise a fresh unbuilt payload is created and cached in its place.
    pub fn get_or_insert_with(&mut self, type_key: u64, identity: u64) -> (node: NodeId)
        requires
            old(self).wf(),
            old(self).len() < usize::MAX,
            old(self).live_entry(type_key, identity) matches Some(n) ==> old(self).node(
                n as int,
            ).handles < u64::MAX,
        ensures
            final(self).wf(),
            old(self).readers_consistent() ==> final(self).readers_consistent(),
            (node as int) < final(self).len(),
            final(self).node(node as int).alive,
            final(self).node(node as int).type_key == type_key,
            final(self).node(node as int).identity == identity,
            final(self).live_entry(type_key, identity) == Some(node),
            match old(self).live_entry(type_key, identity) {
                Some(n) => {
                    &&& node == n
                    &&& final(self).payloads@ == old(self).payloads@.update(
                        n as int,
                        old(self).node(n as int).with_handles((old(self).node(n as int).handles + 1) as u64),
                    )
                    &&& final(self).typed_caches@ == old(self).typed_caches@
                },
                None => {
                    &&& node as int == old(self).len()
                    &&& final(self).payloads@.len() == old(self).payloads@.len() + 1
                    &&& forall|k: int| 0 <= k < old(self).len() ==> #[trigger] final(self).payloads@[k] == old(self).payloads@[k]
                    &&& final(self).node(node as int).is_unbuilt()
                    &&& final(self).node(node as int).handles == 1
                    &&& forall|tk: u64, id: u64| (tk, id) != (type_key, identity) ==> #[trigger] final(self).entry(tk, id) == old(self).entry(tk, id)
                    &&& final(self).entry(type_key, identity) == Some(node)
                },
            },
    {
        match self.find_live(type_key, identity) {
            Some(node) => {
                self.acquire(node);
                proof {
                    assert(self.node(node as int).alive);
                    assert(self.typed_caches@[type_key].values@[identity] == node);
                }
                node
            },
            None => {
                let ghost pre = *self;
                let node = self.payloads.len();
                let mut payload = LazyPayload::new(identity, type_key);
                payload.handles = 1;
                payload.alive = true;
                self.payloads.push(payload);
                let mut typed = match self.typed_caches.remove(&type_key) {
                    Some(typed) => typed,
                    None => TypedCache::new(),
                };
                let ghost old_values = typed.values@;
                typed.values.insert(identity, node);
                self.typed_caches.insert(type_key, typed);
                proof {
                    assert(self.payloads@ == pre.payloads@.push(self.payloads@[node as int]));
                    assert forall|k: int| 0 <= k < pre.len() implies #[trigger] self.payloads@[k] == pre.payloads@[k] by {}
                    assert(self.typed_caches@ == pre.typed_caches@.insert(type_key, typed));
                    assert(typed.values@ == old_values.insert(identity, node));
                    assert(pre.typed_caches@.contains_key(type_key) ==> old_values == pre.typed_caches@[type_key].values@);
                    assert(!pre.typed_caches@.contains_key(type_key) ==> old_values == Map::<u64, NodeId>::empty());
                    assert forall|tk: u64, id: u64| (tk, id) != (type_key, identity) implies #[trigger] self.entry(tk, id) == pre.entry(tk, id) by {
                        if tk == type_key {
                            assert(id != identity);
                        }
                    }
                    self.lemma_pushed_payload(&pre, type_key, identity);
                }
                node
            },
        }
    }

    /// Facts about the cache right after a fresh held payload was pushed and cached.
    proof fn lemma_pushed_payload(&self, pre: &Self, type_key: u64, identity: u64)
        requires
            pre.wf(),
            pre.live_entry(type_key, identity) is None,
            self.payloads@.len() == pre.payloads@.len() + 1,
            self.payloads@.len() <= usize::MAX,
            forall|k: int| 0 <= k < pre.len() ==> #[trigger] self.payloads@[k] == pre.payloads@[k],
            self.node(pre.len()).identity == identity,
            self.node(pre.len()).type_key == type_key,
            self.node(pre.len()).is_unbuilt(),
            self.node(pre.len()).handles == 1,
            self.node(pre.len()).alive,
            forall|tk: u64, id: u64| (tk, id) != (type_key, identity) ==> #[trigger] self.entry(tk, id) == pre.entry(tk, id),
            self.entry(type_key, identity) == Some(pre.len() as NodeId),
        ensures
            self.wf(),
            pre.readers_consistent() ==> self.readers_consistent(),
            self.live_entry(type_key, identity) == Some(pre.len() as NodeId),
    {
        let node = pre.len() as NodeId;
        let old_len = pre.len();
        assert forall|k: int| 0 <= k < self.len() implies #[trigger] self.deps(k) == (if k < old_len { pre.deps(k) } else { Seq::<NodeId>::empty() }) && self.rdeps(k) == (if k < old_len { pre.rdeps(k) } else { Seq::<NodeId>::empty() }) by {
            if k < old_len {
                assert(self.payloads@[k] == pre.payloads@[k]);
            } else {
                assert(self.deps(k).len() == 0);
                assert(self.rdeps(k).len() == 0);
            }
        }
        assert forall|k: int| 0 <= k < old_len implies {
            &&& #[trigger] self.deps(k) == pre.deps(k)
            &&& self.rdeps(k) == pre.rdeps(k)
            &&& (self.node(k).alive ==> pre.node(k).alive)
        } by {
            assert(self.payloads@[k] == pre.payloads@[k]);
        }
        assert forall|k: int| old_len <= k < self.len() implies (#[trigger] self.rdeps(k)).len() == 0 by {
            assert(self.deps(k) == Seq::<NodeId>::empty());
        }
        if pre.readers_consistent() {
            self.lemma_readers_carry_over(pre);
        }
        // Ranges and uniqueness of edges.
        assert forall|n: int, j: int| 0 <= n < self.len() && 0 <= j < self.deps(n).len() implies (
        #[trigger] self.deps(n)[j] as int) < self.len() by {
            assert(n < old_len);
            assert(self.deps(n) == pre.deps(n));
        }
        assert forall|n: int, j: int| 0 <= n < self.len() && 0 <= j < self.rdeps(n).len() implies (
        #[trigger] self.rdeps(n)[j] as int) < self.len() by {
            assert(self.deps(n) == (if n < old_len { pre.deps(n) } else { Seq::<NodeId>::empty() }));
            assert(n < old_len);
            assert(self.rdeps(n) == pre.rdeps(n));
        }
        assert forall|n: int| 0 <= n < self.len() implies (#[trigger] self.deps(n)).no_duplicates()
            && self.rdeps(n).no_duplicates() by {
            if n < old_len {
                assert(self.deps(n) == pre.deps(n));
            } else {
                assert(self.deps(n) == Seq::<NodeId>::empty());
            }
        }
        // Liveness: the new payload is held and reads nothing; the old payloads keep theirs.
        assert forall|v: int| 0 <= v < self.len() && #[trigger] self.node(v).handles > 0 implies self.node(v).alive by {
            if v < old_len {
                assert(self.payloads@[v] == pre.payloads@[v]);
                pre.lemma_held_reached(v as NodeId);
            }
        }
        assert forall|p: int, d: NodeId|
            0 <= p < self.len() && self.node(p).alive && #[trigger] self.deps(p).contains(d) implies self.node(
                d as int,
            ).alive by {
            assert(p < old_len);
            assert(self.payloads@[p] == pre.payloads@[p]);
            let j = choose|j: int| 0 <= j < pre.deps(p).len() && pre.deps(p)[j] == d;
            assert((pre.deps(p)[j] as int) < pre.len());
            assert(self.payloads@[d as int] == pre.payloads@[d as int]);
        }
        assert forall|v: int|
            0 <= v < self.len() && #[trigger] self.node(v).alive implies self.node(v).handles > 0 || self.read_by_alive(
                v as NodeId,
            ) by {
            if v < old_len {
                assert(self.payloads@[v] == pre.payloads@[v]);
                if pre.node(v).handles == 0 {
                    assert(pre.read_by_alive(v as NodeId));
                    let q = choose|q: int| 0 <= q < pre.len() && pre.node(q).alive && #[trigger] pre.deps(q).contains(v as NodeId);
                    assert(self.payloads@[q] == pre.payloads@[q]);
                    assert(self.deps(q).contains(v as NodeId));
                }
            }
        }
        // Reverse edges.
        if pre.readers_consistent() {
            assert forall|p: int, d: NodeId|
                0 <= p < self.len() && self.node(p).alive && #[trigger] self.deps(p).contains(d)
                implies self.rdeps(d as int).contains(p as NodeId) by {
                assert(p < old_len);
                assert(self.payloads@[p] == pre.payloads@[p]);
                let j = choose|j: int| 0 <= j < pre.deps(p).len() && pre.deps(p)[j] == d;
                assert((pre.deps(p)[j] as int) < pre.len());
                assert(self.payloads@[d as int] == pre.payloads@[d as int]);
            }
        }
        // Keys.
        assert forall|tk: u64, id: u64|
            #![trigger self.typed_caches@[tk].values@[id]]
            self.typed_caches@.contains_key(tk) && self.typed_caches@[tk].values@.contains_key(id)
            implies {
                let n = self.typed_caches@[tk].values@[id] as int;
                &&& 0 <= n < self.len()
                &&& self.node(n).type_key == tk
                &&& self.node(n).identity == id
            } by {
            assert(self.entry(tk, id) == Some(self.typed_caches@[tk].values@[id]));
            if (tk, id) != (type_key, identity) {
                assert(pre.entry(tk, id) == self.entry(tk, id));
                let n = pre.typed_caches@[tk].values@[id] as int;
                assert(self.payloads@[n] == pre.payloads@[n]);
            }
        }
        assert forall|n: int| 0 <= n < self.len() && (#[trigger] self.node(n)).alive implies {
            let tk = self.node(n).type_key;
            let id = self.node(n).identity;
            &&& self.typed_caches@.contains_key(tk)
            &&& self.typed_caches@[tk].values@.contains_key(id)
            &&& self.typed_caches@[tk].values@[id] == n
        } by {
            if n < old_len {
                assert(self.payloads@[n] == pre.payloads@[n]);
                let tk = pre.node(n).type_key;
                let id = pre.node(n).identity;
                assert(pre.entry(tk, id) == Some(n as NodeId));
                if (tk, id) == (type_key, identity) {
                    assert(pre.live_entry(type_key, identity) == Some(n as NodeId));
                }
                assert(self.entry(tk, id) == pre.entry(tk, id));
            }
        }
    }

    /// The invariant depends only on edges, keys, handles and liveness.
    proof fn lemma_same_structure(&self, pre: &Self)
        requires
            pre.wf(),
            self.payloads@.len() == pre.payloads@.len(),
            forall|k: int| 0 <= k < pre.len() ==> (#[trigger] self.payloads@[k]).same_structure(&pre.payloads@[k]),
            self.typed_caches@ == pre.typed_caches@,
        ensures
            self.wf(),
            pre.readers_consistent() ==> self.readers_consistent(),
            self.alive_mask() == pre.alive_mask(),
            self.dep_graph() == pre.dep_graph(),
            self.rdep_graph() == pre.rdep_graph(),
            forall|from: NodeId, t: NodeId| #[trigger] self.reads_transitively(from, t) == pre.reads_transitively(from, t),
    {
        assert forall|k: int| 0 <= k < self.len() implies #[trigger] self.deps(k) == pre.deps(k) && self.rdeps(k)
            == pre.rdeps(k) by {
            assert(self.payloads@[k].same_structure(&pre.payloads@[k]));
        }
        self.lemma_same_shape(pre);
        assert forall|k: int| 0 <= k < pre.len() implies {
            &&& #[trigger] self.deps(k) == pre.deps(k)
            &&& self.rdeps(k) == pre.rdeps(k)
            &&& (self.node(k).alive ==> pre.node(k).alive)
        } by {
            assert(self.payloads@[k].same_structure(&pre.payloads@[k]));
        }
        if pre.readers_consistent() {
            self.lemma_readers_carry_over(pre);
        }
        assert(self.alive_mask() =~= pre.alive_mask()) by {
            assert forall|k: int| 0 <= k < pre.len() implies self.alive_mask()[k] == pre.alive_mask()[k] by {
                assert(self.payloads@[k].same_structure(&pre.payloads@[k]));
            }
        }
        assert forall|k: int| 0 <= k < pre.len() implies #[trigger] self.node(k).alive == pre.node(k).alive
            && self.node(k).handles == pre.node(k).handles by {
            assert(self.payloads@[k].same_structure(&pre.payloads@[k]));
        }
        self.lemma_counted_carry_over(pre);
        if pre.readers_consistent() {
            assert forall|p: int, d: NodeId|
                0 <= p < self.len() && self.node(p).alive && #[trigger] self.deps(p).contains(d)
                implies self.rdeps(d as int).contains(p as NodeId) by {
                assert(self.payloads@[p].same_structure(&pre.payloads@[p]));
                let j = choose|j: int| 0 <= j < pre.deps(p).len() && pre.deps(p)[j] == d;
                assert((pre.deps(p)[j] as int) < pre.len());
            }
        }
        assert forall|tk: u64, id: u64|
            #![trigger self.typed_caches@[tk].values@[id]]
            self.typed_caches@.contains_key(tk) && self.typed_caches@[tk].values@.contains_key(id)
            implies {
                let n = self.typed_caches@[tk].values@[id] as int;
                &&& 0 <= n < self.len()
                &&& self.node(n).type_key == tk
                &&& self.node(n).identity == id
            } by {
            let n = pre.typed_caches@[tk].values@[id] as int;
            assert(self.payloads@[n].same_structure(&pre.payloads@[n]));
        }
        assert forall|n: int| 0 <= n < self.len() && (#[trigger] self.node(n)).alive implies {
            let tk = self.node(n).type_key;
            let id = self.node(n).identity;
            &&& self.typed_caches@.contains_key(tk)
            &&& self.typed_caches@[tk].values@.contains_key(id)
            &&& self.typed_caches@[tk].values@[id] == n
        } by {
            assert(self.payloads@[n].same_structure(&pre.payloads@[n]));
            assert(pre.node(n).alive);
        }
    }

    /// Marks a payload, and every alive payload that read it directly or transitively, for
    /// rebuilding. Nothing else changes.
    pub fn invalidate(&mut self, node: NodeId)
        requires
            old(self).wf(),
            (node as int) < old(self).len(),
            !old(self).invalidation_loops(node),
        ensures
            final(self).wf(),
            old(self).readers_consistent() ==> final(self).readers_consistent(),
            final(self).payloads@.len() == old(self).payloads@.len(),
            forall|k: int|
                0 <= k < old(self).len() ==> #[trigger] final(self).payloads@[k] == old(self).payloads@[k].with_pending(
                    old(self).payloads@[k].rebuild_pending || old(self).reads_transitively(node, k as NodeId),
                ),
            final(self).typed_caches@ == old(self).typed_caches@,
    {
        let n = self.payloads.len();
        let mut alive: Vec<bool> = Vec::new();
        for i in 0..n
            invariant
                n == self.len(),
                alive@.len() == i,
                forall|k: int| 0 <= k < i ==> alive@[k] == self.node(k).alive,
        {
            alive.push(self.payloads[i].alive);
        }
        let mut sources: Vec<NodeId> = Vec::new();
        sources.push(node);
        let ghost is_from = |w: NodeId| w == node;
        proof {
            assert(alive@ =~= self.alive_mask());
            assert forall|v: NodeId| #[trigger] is_from(v) <==> sources@.contains(v) by {
                if v == node {
                    assert(sources@[0] == node);
                }
            }
        }
        let marked = self.mark_reachable(true, &alive, &sources, Ghost(is_from));
        let ghost pre = *self;
        for i in 0..n
            invariant
                n == pre.len(),
                self.payloads@.len() == n,
                marked@.len() == n,
                self.typed_caches@ == pre.typed_caches@,
                forall|t: NodeId|
                    (t as int) < n ==> (marked@[t as int] <==> pre.reads_transitively(node, t)),
                forall|k: int|
                    0 <= k < n ==> #[trigger] self.payloads@[k] == (if k < i {
                        pre.payloads@[k].with_pending(pre.payloads@[k].rebuild_pending || marked@[k])
                    } else {
                        pre.payloads@[k]
                    }),
        {
            if marked[i] {
                self.payloads[i].rebuild_pending = true;
            }
            proof {
                assert(self.payloads@[i as int] == pre.payloads@[i as int].with_pending(
                    pre.payloads@[i as int].rebuild_pending || marked@[i as int],
                ));
            }
        }
        proof {
            assert forall|k: int| 0 <= k < n implies #[trigger] self.payloads@[k] == pre.payloads@[k].with_pending(
                pre.payloads@[k].rebuild_pending || pre.reads_transitively(node, k as NodeId),
            ) by {
                assert(marked@[(k as NodeId) as int] == marked@[k]);
            }
            assert forall|k: int| 0 <= k < pre.len() implies (#[trigger] self.payloads@[k]).same_structure(&pre.payloads@[k]) by {
                assert(self.payloads@[k] == pre.payloads@[k].with_pending(
                    pre.payloads@[k].rebuild_pending || pre.reads_transitively(node, k as NodeId),
                ));
            }
            self.lemma_same_structure(&pre);
        }
    }

    /// The alive flag of every payload, by id.
    fn alive_flags(&self) -> (flags: Vec<bool>)
        ensures
            flags@ == self.alive_mask(),
    {
        let n = self.payloads.len();
        let mut flags: Vec<bool> = Vec::new();
        for i in 0..n
            invariant
                n == self.len(),
                flags@.len() == i,
                forall|k: int| 0 <= k < i ==> flags@[k] == self.node(k).alive,
        {
            flags.push(self.payloads[i].alive);
        }
        proof {
            assert(flags@ =~= self.alive_mask());
        }
        flags
    }

    /// Whether invalidating `node` ends: no payload that it reaches is on a cycle of
    /// readers.
    pub fn invalidation_terminates(&self, node: NodeId) -> (ends: bool)
        requires
            self.wf(),
            (node as int) < self.len(),
        ensures
            ends == !self.invalidation_loops(node),
    {
        let n = self.payloads.len();
        let alive = self.alive_flags();
        let mut sources: Vec<NodeId> = Vec::new();
        sources.push(node);
        let ghost is_from = |w: NodeId| w == node;
        proof {
            assert forall|v: NodeId| #[trigger] is_from(v) <==> sources@.contains(v) by {
                if v == node {
                    assert(sources@[0] == node);
                }
            }
        }
        let reached = self.mark_reachable(true, &alive, &sources, Ghost(is_from));
        for t in 0..n
            invariant
                n == self.len(),
                self.wf(),
                alive@ == self.alive_mask(),
                reached@.len() == n,
                forall|v: NodeId| (v as int) < n ==> (reached@[v as int] <==> self.reads_transitively(node, v)),
                forall|v: NodeId| (v as int) < t ==> !(#[trigger] self.reads_transitively(node, v) && self.on_reader_cycle(v)),
        {
            if reached[t] && alive[t] {
                proof {
                    assert(self.deps(t as int).no_duplicates());
                    assert(self.rdeps(t as int).no_duplicates());
                    assert forall|k: int| 0 <= k < self.rdeps(t as int).len() implies (#[trigger] self.rdeps(
                        t as int,
                    )[k] as int) < alive@.len() by {
                        assert((self.rdeps(t as int)[k] as int) < self.len());
                    }
                }
                let readers = select_nodes(&self.payloads[t].build_record.reverse_dependencies, &alive);
                let ghost in_readers = |w: NodeId| readers@.contains(w);
                proof {
                    assert forall|k: int| 0 <= k < readers@.len() implies (#[trigger] readers@[k] as int) < self.len() by {
                        assert(readers@.contains(readers@[k]));
                        let j = choose|j: int| 0 <= j < self.rdeps(t as int).len() && self.rdeps(t as int)[j] == readers@[k];
                        assert((self.rdeps(t as int)[j] as int) < self.len());
                    }
                }
                let back = self.mark_reachable(true, &alive, &readers, Ghost(in_readers));
                if back[t] {
                    proof {
                        let adj = self.rdep_graph();
                        let al = self.alive_mask();
                        assert(reaches(adj, al, in_readers, t));
                        let walk = choose|walk: Seq<NodeId>| #[trigger] is_walk(adj, al, walk) && in_readers(walk[0])
                            && walk.last() == t;
                        let s = walk[0];
                        assert(is_walk(adj, al, walk) && (|w: NodeId| w == s)(walk[0]) && walk.last() == t);
                        assert(self.reads_transitively(s, t as NodeId));
                        assert(self.on_reader_cycle(t as NodeId));
                        assert(self.reads_transitively(node, t as NodeId));
                    }
                    return false;
                }
                proof {
                    assert forall|s: NodeId|
                        self.rdeps(t as int).contains(s) && self.node(s as int).alive implies !#[trigger] self.reads_transitively(
                        s,
                        t as NodeId,
                    ) by {
                        assert(readers@.contains(s));
                        if self.reads_transitively(s, t as NodeId) {
                            lemma_reaches_more_sources(self.rdep_graph(), self.alive_mask(), |w: NodeId| w == s, in_readers, t as NodeId);
                        }
                    }
                }
            }
            proof {
                assert forall|v: NodeId| (v as int) < t + 1 implies !(#[trigger] self.reads_transitively(node, v) && self.on_reader_cycle(v)) by {
                    if v as int == t as int {
                        if self.reads_transitively(node, v) && self.on_reader_cycle(v) {
                            assert(reached@[v as int]);
                            assert(alive@[v as int]);
                        }
                    }
                }
            }
        }
        proof {
            assert forall|v: NodeId| !(#[trigger] self.reads_transitively(node, v) && self.on_reader_cycle(v)) by {
                if (v as int) >= n && self.on_reader_cycle(v) {
                }
            }
        }
        true
    }

    /// The last build artifact of a payload, if it has been built.
    pub fn artifact(&self, node: NodeId) -> (artifact: &Option<Result<A, LazyEvalError<E>>>)
        requires
            (node as int) < self.len(),
        ensures
            *artifact == self.node(node as int).build_record.artifact,
    {
        &self.payloads[node].build_record.artifact
    }

    /// Every payload can take `k` more strong references without its count overflowing.
    pub open spec fn handle_room(&self, k: int) -> bool {
        forall|n: int| 0 <= n < self.len() ==> #[trigger] self.node(n).handles + k <= u64::MAX
    }

    /// Payload `n`, if it exists, can take `k` more strong references.
    pub open spec fn handle_room_at(&self, n: NodeId, k: int) -> bool {
        (n as int) < self.len() ==> self.node(n as int).handles + k <= u64::MAX
    }

    /// Whether every payload can take `k` more strong references.
    pub fn has_handle_room(&self, k: u64) -> (room: bool)
        ensures
            room == self.handle_room(k as int),
    {
        let n = self.payloads.len();
        for i in 0..n
            invariant
                n == self.len(),
                forall|j: int| 0 <= j < i ==> #[trigger] self.node(j).handles + k <= u64::MAX,
        {
            if self.payloads[i].handles > u64::MAX - k {
                proof {
                    assert(self.node(i as int).handles + k > u64::MAX);
                }
                return false;
            }
        }
        true
    }

    /// A held payload is alive.
    pub proof fn lemma_held_is_alive(&self, v: NodeId)
        requires
            self.wf(),
            (v as int) < self.len(),
            self.node(v as int).handles > 0,
        ensures
            self.node(v as int).alive,
    {
        self.lemma_held_reached(v);
    }

    /// What an alive payload read is alive.
    pub proof fn lemma_dependency_alive(&self, p: NodeId, d: NodeId)
        requires
            self.wf(),
            (p as int) < self.len(),
            self.node(p as int).alive,
            self.deps(p as int).contains(d),
        ensures
            (d as int) < self.len(),
            self.node(d as int).alive,
    {
        let j = choose|j: int| 0 <= j < self.deps(p as int).len() && self.deps(p as int)[j] == d;
        assert((self.deps(p as int)[j] as int) < self.len());
    }

    /// A payload with no handle and no alive reader is not alive.
    pub proof fn lemma_unreferenced_dead(&self, n: NodeId)
        requires
            self.wf(),
            (n as int) < self.len(),
            self.node(n as int).handles == 0,
            forall|p: int| 0 <= p < self.len() && self.node(p).alive ==> !(#[trigger] self.deps(p)).contains(n),
        ensures
            !self.node(n as int).alive,
            self.live_entry(self.node(n as int).type_key, self.node(n as int).identity) != Some(n),
    {
        if self.node(n as int).alive {
            assert(self.node((n as NodeId) as int).alive);
            assert(self.read_by_alive(n));
            let q = choose|q: int| 0 <= q < self.len() && self.node(q).alive && #[trigger] self.deps(q).contains(n);
        }
    }

    /// An alive payload is the one its typed cache holds for its key.
    pub proof fn lemma_alive_is_entry(&self, v: NodeId)
        requires
            self.wf(),
            (v as int) < self.len(),
            self.node(v as int).alive,
        ensures
            self.live_entry(self.node(v as int).type_key, self.node(v as int).identity) == Some(v),
    {
    }

    /// The counted invariant carries over to a cache with the same liveness and the same
    /// dependencies of alive payloads, where the held payloads are alive and an alive
    /// payload held before is held still.
    proof fn lemma_counted_carry_over(&self, pre: &Self)
        requires
            pre.ids_in_range(),
            pre.liveness_counted(),
            self.payloads@.len() == pre.payloads@.len(),
            forall|k: int| 0 <= k < pre.len() ==> #[trigger] self.node(k).alive == pre.node(k).alive,
            forall|k: int| 0 <= k < pre.len() && pre.node(k).alive ==> #[trigger] self.deps(k) == pre.deps(k),
            forall|k: int| 0 <= k < pre.len() && #[trigger] self.node(k).handles > 0 ==> self.node(k).alive,
            forall|k: int|
                0 <= k < pre.len() && pre.node(k).alive && #[trigger] pre.node(k).handles > 0 ==> self.node(k).handles > 0,
        ensures
            self.liveness_counted(),
    {
        assert forall|p: int, d: NodeId|
            0 <= p < self.len() && self.node(p).alive && #[trigger] self.deps(p).contains(d) implies self.node(
                d as int,
            ).alive by {
            assert(self.node(p).alive == pre.node(p).alive);
            assert(self.deps(p) == pre.deps(p));
            assert(pre.node(d as int).alive);
            let j = choose|j: int| 0 <= j < pre.deps(p).len() && pre.deps(p)[j] == d;
            assert((pre.deps(p)[j] as int) < pre.len());
            assert(self.node(d as int).alive == pre.node(d as int).alive);
        }
        assert forall|v: int|
            0 <= v < self.len() && #[trigger] self.node(v).alive implies self.node(v).handles > 0 || self.read_by_alive(
                v as NodeId,
            ) by {
            assert(self.node(v).alive == pre.node(v).alive);
            assert(pre.node(v).alive);
            if pre.node(v).handles == 0 {
                assert(pre.read_by_alive(v as NodeId));
                let q = choose|q: int| 0 <= q < pre.len() && pre.node(q).alive && #[trigger] pre.deps(q).contains(v as NodeId);
                assert(self.node(q).alive == pre.node(q).alive);
                assert(self.deps(q) == pre.deps(q));
                assert(self.deps(q).contains(v as NodeId));
            } else {
                assert(pre.node(v).handles > 0);
            }
        }
    }

    /// A held payload is alive.
    proof fn lemma_held_reached(&self, v: NodeId)
        requires
            self.liveness_counted(),
            (v as int) < self.len(),
            self.node(v as int).handles > 0,
        ensures
            self.node(v as int).alive,
    {
        assert(self.node(v as int).handles > 0);
    }

    /// Structural facts carry over to a cache with the same edges and the same payload keys.
    proof fn lemma_same_shape(&self, pre: &Self)
        requires
            pre.ids_in_range(),
            pre.edges_unique(),
            self.payloads@.len() == pre.payloads@.len(),
            forall|k: int| 0 <= k < self.len() ==> #[trigger] self.deps(k) == pre.deps(k) && self.rdeps(k)
                == pre.rdeps(k),
        ensures
            self.ids_in_range(),
            self.edges_unique(),
            self.dep_graph() == pre.dep_graph(),
            self.rdep_graph() == pre.rdep_graph(),
            self.everywhere() == pre.everywhere(),
    {
        assert forall|n: int, j: int| 0 <= n < self.len() && 0 <= j < self.deps(n).len() implies (
        #[trigger] self.deps(n)[j] as int) < self.len() by {
            assert(self.deps(n) == pre.deps(n));
        }
        assert forall|n: int, j: int| 0 <= n < self.len() && 0 <= j < self.rdeps(n).len() implies (
        #[trigger] self.rdeps(n)[j] as int) < self.len() by {
            assert(self.deps(n) == pre.deps(n));
            assert(self.rdeps(n) == pre.rdeps(n));
        }
        assert forall|n: int| 0 <= n < self.len() implies (#[trigger] self.deps(n)).no_duplicates()
            && self.rdeps(n).no_duplicates() by {
            assert(self.deps(n) == pre.deps(n));
        }
        assert(self.dep_graph() =~= pre.dep_graph()) by {
            assert forall|k: int| 0 <= k < pre.len() implies self.dep_graph()[k] == pre.dep_graph()[k] by {
                assert(self.deps(k) == pre.deps(k));
            }
        }
        assert(self.rdep_graph() =~= pre.rdep_graph()) by {
            assert forall|k: int| 0 <= k < pre.len() implies self.rdep_graph()[k] == pre.rdep_graph()[k] by {
                assert(self.deps(k) == pre.deps(k));
            }
        }
        assert(self.everywhere() =~= pre.everywhere());
    }

}

} // verus!
