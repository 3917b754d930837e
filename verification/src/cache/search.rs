//! Marking the payloads reachable along edges, and freeing what reference counting frees.
use vstd::prelude::*;
use vstd::set_lib::{lemma_int_range, lemma_len_subset, set_int_range};

use super::Cache;
use crate::lazy::{LazyPayload, NodeId};
use crate::node_set::contains_node;
use crate::reach::{
    is_closed, lemma_closed_marks_reachable, lemma_reaches_source, lemma_reaches_step, reaches,
};

verus! {

/// The positions of the `true` entries of a mask.
pub open spec fn marked_set(m: Seq<bool>) -> Set<int> {
    Set::new(|i: int| 0 <= i < m.len() && m[i])
}

proof fn lemma_marked_set_bounded(m: Seq<bool>)
    ensures
        marked_set(m).finite(),
        marked_set(m).len() <= m.len(),
{
    lemma_int_range(0, m.len() as int);
    assert(marked_set(m).subset_of(set_int_range(0, m.len() as int)));
    lemma_len_subset(marked_set(m), set_int_range(0, m.len() as int));
}

proof fn lemma_marked_set_unmark(m: Seq<bool>, v: int)
    requires
        0 <= v < m.len(),
        m[v],
    ensures
        marked_set(m.update(v, false)) == marked_set(m).remove(v),
        marked_set(m.update(v, false)).len() == marked_set(m).len() - 1,
        marked_set(m.update(v, false)).finite(),
{
    lemma_marked_set_bounded(m);
    assert(marked_set(m.update(v, false)) =~= marked_set(m).remove(v));
}

proof fn lemma_marked_set_mark(m: Seq<bool>, v: int)
    requires
        0 <= v < m.len(),
        !m[v],
    ensures
        marked_set(m.update(v, true)) == marked_set(m).insert(v),
        marked_set(m.update(v, true)).len() == marked_set(m).len() + 1,
{
    lemma_marked_set_bounded(m);
    assert(marked_set(m.update(v, true)) =~= marked_set(m).insert(v));
}

impl<A, E> Cache<A, E> {
    /// Whether some alive payload read `v` in its last build.
    fn is_read_by_alive(&self, v: NodeId) -> (found: bool)
        ensures
            found == self.read_by_alive(v),
    {
        let n = self.payloads.len();
        for q in 0..n
            invariant
                n == self.len(),
                forall|k: int| 0 <= k < q ==> !(self.node(k).alive && #[trigger] self.deps(k).contains(v)),
        {
            if self.payloads[q].alive && contains_node(&self.payloads[q].build_record.dependencies, v) {
                assert(self.node(q as int).alive && self.deps(q as int).contains(v));
                return true;
            }
        }
        false
    }

    /// Frees what reference counting frees: every alive payload that is neither held nor
    /// read by a payload left alive stops being alive, repeatedly, until none is left.
    pub(super) fn settle_liveness(&mut self)
        requires
            old(self).ids_in_range(),
            forall|v: int| 0 <= v < old(self).len() && #[trigger] old(self).node(v).handles > 0 ==> old(self).node(v).alive,
            forall|p: int, d: NodeId|
                0 <= p < old(self).len() && old(self).node(p).alive && #[trigger] old(self).deps(p).contains(d)
                    ==> old(self).node(d as int).alive,
        ensures
            final(self).payloads@.len() == old(self).payloads@.len(),
            forall|i: int|
                0 <= i < old(self).len() ==> (#[trigger] final(self).payloads@[i]).same_but_liveness(
                    &old(self).payloads@[i],
                ),
            final(self).typed_caches@ == old(self).typed_caches@,
            final(self).dep_graph() == old(self).dep_graph(),
            final(self).rdep_graph() == old(self).rdep_graph(),
            final(self).ids_in_range(),
            final(self).liveness_counted(),
            final(self).alive_is_largest_supported_in(old(self).alive_set()),
    {
        let ghost pre = *self;
        let n = self.payloads.len();
        loop
            invariant
                n == pre.len(),
                self.payloads@.len() == n,
                self.typed_caches@ == pre.typed_caches@,
                pre.ids_in_range(),
                forall|k: int| 0 <= k < n ==> (#[trigger] self.payloads@[k]).same_but_liveness(&pre.payloads@[k]),
                forall|k: int| 0 <= k < n && #[trigger] self.node(k).alive ==> pre.node(k).alive,
                forall|v: int| 0 <= v < n && #[trigger] self.node(v).handles > 0 ==> self.node(v).alive,
                forall|p: int, d: NodeId|
                    0 <= p < n && self.node(p).alive && #[trigger] self.deps(p).contains(d) ==> self.node(d as int).alive,
                forall|st: Set<NodeId>|
                    st.subset_of(pre.alive_set()) && #[trigger] pre.self_supporting(st) ==> st.subset_of(self.alive_set()),
            ensures
                forall|w: int|
                    0 <= w < n && #[trigger] self.node(w).alive ==> self.node(w).handles > 0 || self.read_by_alive(
                        w as NodeId,
                    ),
            decreases marked_set(self.alive_mask()).len(),
        {
            let ghost start = self.alive_mask();
            proof {
                lemma_marked_set_bounded(start);
            }
            let mut removed = false;
            for v in 0..n
                invariant
                    n == pre.len(),
                    self.payloads@.len() == n,
                    self.typed_caches@ == pre.typed_caches@,
                    pre.ids_in_range(),
                    start.len() == n,
                    forall|k: int| 0 <= k < n ==> (#[trigger] self.payloads@[k]).same_but_liveness(&pre.payloads@[k]),
                    forall|k: int| 0 <= k < n && #[trigger] self.node(k).alive ==> pre.node(k).alive,
                    forall|w: int| 0 <= w < n && #[trigger] self.node(w).handles > 0 ==> self.node(w).alive,
                    forall|p: int, d: NodeId|
                        0 <= p < n && self.node(p).alive && #[trigger] self.deps(p).contains(d) ==> self.node(d as int).alive,
                    forall|st: Set<NodeId>|
                        st.subset_of(pre.alive_set()) && #[trigger] pre.self_supporting(st) ==> st.subset_of(self.alive_set()),
                    marked_set(self.alive_mask()).finite(),
                    marked_set(self.alive_mask()).len() <= marked_set(start).len(),
                    removed ==> marked_set(self.alive_mask()).len() < marked_set(start).len(),
                    !removed ==> self.alive_mask() == start,
                    !removed ==> forall|w: int|
                        0 <= w < v && #[trigger] self.node(w).alive ==> self.node(w).handles > 0 || self.read_by_alive(
                            w as NodeId,
                        ),
            {
                if self.payloads[v].alive && self.payloads[v].handles == 0 && !self.is_read_by_alive(v) {
                    let ghost cur = *self;
                    self.payloads[v].alive = false;
                    removed = true;
                    proof {
                        self.lemma_freed_one(&cur, &pre, v);
                        lemma_marked_set_unmark(cur.alive_mask(), v as int);
                        assert(self.alive_mask() =~= cur.alive_mask().update(v as int, false));
                    }
                }
            }
            if !removed {
                break;
            }
        }
        proof {
            assert(self.dep_graph() =~= pre.dep_graph()) by {
                assert forall|k: int| 0 <= k < n implies self.dep_graph()[k] == pre.dep_graph()[k] by {
                    assert(self.payloads@[k].same_but_liveness(&pre.payloads@[k]));
                }
            }
            assert(self.rdep_graph() =~= pre.rdep_graph()) by {
                assert forall|k: int| 0 <= k < n implies self.rdep_graph()[k] == pre.rdep_graph()[k] by {
                    assert(self.payloads@[k].same_but_liveness(&pre.payloads@[k]));
                }
            }
            assert forall|k: int, j: int| 0 <= k < self.len() && 0 <= j < self.deps(k).len() implies (
            #[trigger] self.deps(k)[j] as int) < self.len() by {
                assert(self.payloads@[k].same_but_liveness(&pre.payloads@[k]));
                assert(self.deps(k) == pre.deps(k));
            }
            assert forall|k: int, j: int| 0 <= k < self.len() && 0 <= j < self.rdeps(k).len() implies (
            #[trigger] self.rdeps(k)[j] as int) < self.len() by {
                assert(self.payloads@[k].same_but_liveness(&pre.payloads@[k]));
                assert(self.rdeps(k) == pre.rdeps(k));
            }
            assert(self.alive_set().subset_of(pre.alive_set()));
            assert forall|st: Set<NodeId>| st.subset_of(pre.alive_set()) && #[trigger] self.self_supporting(st) implies st.subset_of(
                self.alive_set(),
            ) by {
                assert forall|k: int| 0 <= k < pre.len() implies #[trigger] self.deps(k) == pre.deps(k) && self.node(k).handles
                    == pre.node(k).handles by {
                    assert(self.payloads@[k].same_but_liveness(&pre.payloads@[k]));
                }
                self.lemma_same_support(&pre, st);
            }
        }
    }

    /// Freeing one alive payload that is neither held nor read by an alive payload keeps the
    /// counted invariant and every self-supporting part of what was alive.
    proof fn lemma_freed_one(&self, cur: &Self, pre: &Self, v: usize)
        requires
            pre.ids_in_range(),
            cur.payloads@.len() == pre.payloads@.len(),
            (v as int) < cur.len(),
            cur.node(v as int).alive,
            cur.node(v as int).handles == 0,
            !cur.read_by_alive(v),
            self.payloads@ == cur.payloads@.update(v as int, LazyPayload { alive: false, ..cur.payloads@[v as int] }),
            forall|k: int| 0 <= k < cur.len() ==> (#[trigger] cur.payloads@[k]).same_but_liveness(&pre.payloads@[k]),
            forall|k: int| 0 <= k < cur.len() && #[trigger] cur.node(k).alive ==> pre.node(k).alive,
            forall|w: int| 0 <= w < cur.len() && #[trigger] cur.node(w).handles > 0 ==> cur.node(w).alive,
            forall|p: int, d: NodeId|
                0 <= p < cur.len() && cur.node(p).alive && #[trigger] cur.deps(p).contains(d) ==> cur.node(d as int).alive,
            forall|st: Set<NodeId>|
                st.subset_of(pre.alive_set()) && #[trigger] pre.self_supporting(st) ==> st.subset_of(cur.alive_set()),
        ensures
            forall|k: int| 0 <= k < self.len() ==> (#[trigger] self.payloads@[k]).same_but_liveness(&pre.payloads@[k]),
            forall|k: int| 0 <= k < self.len() && #[trigger] self.node(k).alive ==> pre.node(k).alive,
            forall|w: int| 0 <= w < self.len() && #[trigger] self.node(w).handles > 0 ==> self.node(w).alive,
            forall|p: int, d: NodeId|
                0 <= p < self.len() && self.node(p).alive && #[trigger] self.deps(p).contains(d) ==> self.node(d as int).alive,
            forall|st: Set<NodeId>|
                st.subset_of(pre.alive_set()) && #[trigger] pre.self_supporting(st) ==> st.subset_of(self.alive_set()),
    {
        assert forall|k: int| 0 <= k < self.len() && k != v implies #[trigger] self.payloads@[k] == cur.payloads@[k] by {}
        assert(!self.node(v as int).alive);
        assert(self.payloads@[v as int].same_but_liveness(&cur.payloads@[v as int]));
        assert forall|k: int| 0 <= k < self.len() implies (#[trigger] self.payloads@[k]).same_but_liveness(&pre.payloads@[k]) by {
            assert(cur.payloads@[k].same_but_liveness(&pre.payloads@[k]));
            if k != v {
                assert(self.payloads@[k] == cur.payloads@[k]);
            }
        }
        assert forall|k: int| 0 <= k < self.len() && #[trigger] self.node(k).alive implies pre.node(k).alive by {
            assert(k != v);
            assert(self.payloads@[k] == cur.payloads@[k]);
            assert(cur.node(k).alive);
        }
        assert forall|w: int| 0 <= w < self.len() && #[trigger] self.node(w).handles > 0 implies self.node(w).alive by {
            if w != v {
                assert(self.payloads@[w] == cur.payloads@[w]);
                assert(cur.node(w).handles > 0);
            }
        }
        assert forall|p: int, d: NodeId|
            0 <= p < self.len() && self.node(p).alive && #[trigger] self.deps(p).contains(d) implies self.node(d as int).alive by {
            assert(p != v);
            assert(self.payloads@[p] == cur.payloads@[p]);
            assert(cur.deps(p) == self.deps(p));
            assert(cur.node(p).alive);
            if d == v {
                assert(cur.read_by_alive(v));
            } else {
                assert(cur.payloads@[p].same_but_liveness(&pre.payloads@[p]));
                assert(pre.deps(p) == cur.deps(p));
                let j = choose|j: int| 0 <= j < pre.deps(p).len() && pre.deps(p)[j] == d;
                assert((pre.deps(p)[j] as int) < pre.len());
                assert(cur.node(d as int).alive);
                assert(self.payloads@[d as int] == cur.payloads@[d as int]);
            }
        }
        assert forall|st: Set<NodeId>|
            st.subset_of(pre.alive_set()) && #[trigger] pre.self_supporting(st) implies st.subset_of(self.alive_set()) by {
            assert(st.subset_of(cur.alive_set()));
            if st.contains(v) {
                assert((v as int) < pre.len() && (pre.node(v as int).handles > 0 || exists|q: NodeId|
                    st.contains(q) && (q as int) < pre.len() && #[trigger] pre.deps(q as int).contains(v)));
                assert(cur.payloads@[v as int].same_but_liveness(&pre.payloads@[v as int]));
                let q = choose|q: NodeId| st.contains(q) && (q as int) < pre.len() && #[trigger] pre.deps(q as int).contains(v);
                assert(cur.alive_set().contains(q));
                assert(cur.payloads@[q as int].same_but_liveness(&pre.payloads@[q as int]));
                assert(cur.deps(q as int).contains(v));
                assert(cur.read_by_alive(v));
            }
            assert forall|w: NodeId| st.contains(w) implies self.alive_set().contains(w) by {
                assert(cur.alive_set().contains(w));
                assert(w != v);
                assert(self.payloads@[w as int] == cur.payloads@[w as int]);
            }
        }
    }

    /// Self-support depends only on handles and dependencies.
    pub(super) proof fn lemma_same_support(&self, pre: &Self, st: Set<NodeId>)
        requires
            self.payloads@.len() == pre.payloads@.len(),
            forall|k: int| 0 <= k < pre.len() ==> #[trigger] self.deps(k) == pre.deps(k) && self.node(k).handles
                == pre.node(k).handles,
        ensures
            self.self_supporting(st) == pre.self_supporting(st),
    {
        if self.self_supporting(st) {
            assert forall|v: NodeId| #[trigger] st.contains(v) implies (v as int) < pre.len() && (pre.node(v as int).handles > 0 || exists|q: NodeId|
                st.contains(q) && (q as int) < pre.len() && #[trigger] pre.deps(q as int).contains(v)) by {
                assert(self.deps(v as int) == pre.deps(v as int));
                if pre.node(v as int).handles == 0 {
                    let q = choose|q: NodeId| st.contains(q) && (q as int) < self.len() && #[trigger] self.deps(q as int).contains(v);
                    assert(pre.deps(q as int).contains(v));
                }
            }
        }
        if pre.self_supporting(st) {
            assert forall|v: NodeId| #[trigger] st.contains(v) implies (v as int) < self.len() && (self.node(v as int).handles > 0 || exists|q: NodeId|
                st.contains(q) && (q as int) < self.len() && #[trigger] self.deps(q as int).contains(v)) by {
                assert(self.deps(v as int) == pre.deps(v as int));
                if self.node(v as int).handles == 0 {
                    let q = choose|q: NodeId| st.contains(q) && (q as int) < pre.len() && #[trigger] pre.deps(q as int).contains(v);
                    assert(self.deps(q as int).contains(v));
                }
            }
        }
    }

    pub(super) proof fn lemma_graph_in_range(&self, reverse: bool)
        requires
            self.ids_in_range(),
        ensures
            in_range(self.graph(reverse)),
    {
        let adj = self.graph(reverse);
        assert forall|u: int, j: int| 0 <= u < adj.len() && 0 <= j < adj[u].len() implies (
        #[trigger] adj[u][j] as int) < adj.len() by {
            if reverse {
                assert(adj[u] == self.rdeps(u));
                assert((self.rdeps(u)[j] as int) < self.len());
            } else {
                assert(adj[u] == self.deps(u));
                assert((self.deps(u)[j] as int) < self.len());
            }
        }
    }

    /// Marks every payload reachable from `sources` along the forward (`reverse == false`)
    /// or reverse dependency edges, entering only `allowed` payloads after the first.
    pub(super) fn mark_reachable(
        &self,
        reverse: bool,
        allowed: &Vec<bool>,
        sources: &Vec<NodeId>,
        Ghost(is_source): Ghost<spec_fn(NodeId) -> bool>,
    ) -> (marked: Vec<bool>)
        requires
            self.ids_in_range(),
            allowed@.len() == self.len(),
            forall|i: int| 0 <= i < sources@.len() ==> (#[trigger] sources@[i] as int) < self.len(),
            forall|v: NodeId| #[trigger] is_source(v) <==> sources@.contains(v),
        ensures
            marked@.len() == self.len(),
            forall|t: NodeId|
                (t as int) < self.len() ==> (marked@[t as int] <==> reaches(
                    self.graph(reverse),
                    allowed@,
                    is_source,
                    t,
                )),
    {
        let n = self.payloads.len();
        let ghost adj = self.graph(reverse);
        let ghost al = allowed@;
        proof {
            self.lemma_graph_in_range(reverse);
        }
        let mut marked: Vec<bool> = Vec::new();
        while marked.len() < n
            invariant
                marked@.len() <= n,
                forall|i: int| 0 <= i < marked@.len() ==> !marked@[i],
            decreases n - marked.len(),
        {
            marked.push(false);
        }
        let mut worklist: Vec<NodeId> = Vec::new();
        let mut count: usize = 0;
        proof {
            assert(marked_set(marked@) =~= Set::<int>::empty());
            reveal(frontier_ok);
            reveal(closed_except);
        }
        for i in 0..sources.len()
            invariant
                n == self.len(),
                adj == self.graph(reverse),
                adj.len() == n,
                in_range(adj),
                al == allowed@,
                al.len() == n,
                forall|k: int| 0 <= k < sources@.len() ==> (#[trigger] sources@[k] as int) < n,
                forall|v: NodeId| #[trigger] is_source(v) <==> sources@.contains(v),
                frontier_ok(adj, al, is_source, marked@, worklist@, count as int),
                closed_except(adj, al, marked@, worklist@, -1),
                forall|k: int| 0 <= k < i ==> marked@[#[trigger] sources@[k] as int],
        {
            let s = sources[i];
            proof {
                assert(sources@.contains(s));
                lemma_reaches_source(adj, al, is_source, s);
            }
            let ghost before = marked@;
            try_mark(&mut marked, &mut worklist, &mut count, s, Ghost(adj), Ghost(al), Ghost(is_source), Ghost(-1));
            proof {
                assert forall|k: int| 0 <= k < i + 1 implies marked@[#[trigger] sources@[k] as int] by {
                    if k < i {
                        assert(before[sources@[k] as int]);
                    }
                }
            }
        }
        while worklist.len() > 0
            invariant
                n == self.len(),
                adj == self.graph(reverse),
                adj.len() == n,
                in_range(adj),
                al == allowed@,
                al.len() == n,
                forall|k: int| 0 <= k < sources@.len() ==> (#[trigger] sources@[k] as int) < n,
                forall|v: NodeId| #[trigger] is_source(v) <==> sources@.contains(v),
                frontier_ok(adj, al, is_source, marked@, worklist@, count as int),
                closed_except(adj, al, marked@, worklist@, -1),
                forall|k: int| 0 <= k < sources@.len() ==> marked@[#[trigger] sources@[k] as int],
            decreases n - count, worklist.len(),
        {
            proof {
                lemma_frontier_count(adj, al, is_source, marked@, worklist@, count as int);
            }
            let ghost count0 = count;
            let ghost wl0 = worklist@;
            let u = pop_frontier(&mut worklist, Ghost(adj), Ghost(al), Ghost(is_source), Ghost(marked@), Ghost(count as int));
            let ghost wl1 = worklist@;
            let succ: &Vec<NodeId> = if reverse {
                &self.payloads[u].build_record.reverse_dependencies
            } else {
                &self.payloads[u].build_record.dependencies
            };
            proof {
                assert(succ@ == adj[u as int]);
                reveal(frontier_ok);
            }
            for j in 0..succ.len()
                invariant
                    n == self.len(),
                    adj.len() == n,
                    in_range(adj),
                    al == allowed@,
                    al.len() == n,
                    (u as int) < n,
                    succ@ == adj[u as int],
                    marked@[u as int],
                    reaches(adj, al, is_source, u),
                    frontier_ok(adj, al, is_source, marked@, worklist@, count as int),
                    closed_except(adj, al, marked@, worklist@, u as int),
                    count >= count0,
                    worklist@.len() == wl1.len() + (count - count0),
                    wl1.len() + 1 == wl0.len(),
                    !worklist@.contains(u),
                    forall|k: int| 0 <= k < sources@.len() ==> (#[trigger] sources@[k] as int) < n,
                    forall|k: int| 0 <= k < sources@.len() ==> marked@[#[trigger] sources@[k] as int],
                    forall|k: int|
                        0 <= k < j && al[adj[u as int][k] as int] ==> marked@[#[trigger] adj[u as int][k] as int],
            {
                let v = succ[j];
                proof {
                    assert(adj[u as int][j as int] == v);
                    assert((v as int) < n);
                }
                if allowed[v] {
                    proof {
                        assert(adj[u as int].contains(v));
                        lemma_reaches_step(adj, al, is_source, u, v);
                    }
                    let ghost before = marked@;
                    try_mark(&mut marked, &mut worklist, &mut count, v, Ghost(adj), Ghost(al), Ghost(is_source), Ghost(u as int));
                    proof {
                        assert forall|k: int| 0 <= k < sources@.len() implies marked@[#[trigger] sources@[k] as int] by {
                            assert(before[sources@[k] as int]);
                        }
                        assert forall|k: int| 0 <= k < j + 1 && al[adj[u as int][k] as int] implies marked@[#[trigger] adj[u as int][k] as int] by {
                            if k < j {
                                assert(before[adj[u as int][k] as int]);
                            }
                        }
                    }
                }
            }
            proof {
                reveal(closed_except);
                assert(closed_except(adj, al, marked@, worklist@, -1));
                lemma_frontier_count(adj, al, is_source, marked@, worklist@, count as int);
                if count == count0 {
                    assert(worklist@.len() < wl0.len());
                }
            }
        }
        proof {
            reveal(closed_except);
            reveal(frontier_ok);
            assert(is_closed(adj, al, marked@)) by {
                assert forall|u: int, j: int|
                    0 <= u < adj.len() && marked@[u] && 0 <= j < adj[u].len() && al[adj[u][j] as int]
                    implies marked@[#[trigger] adj[u][j] as int] by {
                    assert(!worklist@.contains(u as NodeId));
                }
            }
            assert forall|v: NodeId| (v as int) < adj.len() && #[trigger] is_source(v) implies marked@[v as int] by {
                assert(sources@.contains(v));
                let k = choose|k: int| 0 <= k < sources@.len() && sources@[k] == v;
                assert(marked@[sources@[k] as int]);
            }
            lemma_closed_marks_reachable(adj, al, is_source, marked@);
        }
        marked
    }
}

/// Every edge of `adj` ends at a vertex of `adj`.
pub open spec fn in_range(adj: Seq<Seq<NodeId>>) -> bool {
    forall|u: int, j: int|
        0 <= u < adj.len() && 0 <= j < adj[u].len() ==> (#[trigger] adj[u][j] as int) < adj.len()
}

/// The bookkeeping of a search: `count` marked vertices, each reachable from a source;
/// the worklist holds distinct marked vertices.
#[verifier::opaque]
spec fn frontier_ok(
    adj: Seq<Seq<NodeId>>,
    al: Seq<bool>,
    is_source: spec_fn(NodeId) -> bool,
    marked: Seq<bool>,
    worklist: Seq<NodeId>,
    count: int,
) -> bool {
    &&& marked.len() == adj.len()
    &&& count == marked_set(marked).len()
    &&& forall|k: int|
        0 <= k < worklist.len() ==> (#[trigger] worklist[k] as int) < adj.len() && marked[worklist[k] as int]
    &&& worklist.no_duplicates()
    &&& forall|v: int| 0 <= v < adj.len() && #[trigger] marked[v] ==> reaches(adj, al, is_source, v as NodeId)
}

/// Every marked vertex other than `skip` that is off the worklist has all its allowed
/// successors marked.
#[verifier::opaque]
spec fn closed_except(
    adj: Seq<Seq<NodeId>>,
    al: Seq<bool>,
    marked: Seq<bool>,
    worklist: Seq<NodeId>,
    skip: int,
) -> bool {
    forall|u: int, j: int|
        0 <= u < adj.len() && u != skip && marked[u] && !worklist.contains(u as NodeId) && 0 <= j
            < adj[u].len() && al[adj[u][j] as int] ==> marked[#[trigger] adj[u][j] as int]
}

proof fn lemma_frontier_count(
    adj: Seq<Seq<NodeId>>,
    al: Seq<bool>,
    is_source: spec_fn(NodeId) -> bool,
    marked: Seq<bool>,
    worklist: Seq<NodeId>,
    count: int,
)
    requires
        frontier_ok(adj, al, is_source, marked, worklist, count),
    ensures
        0 <= count <= adj.len(),
{
    reveal(frontier_ok);
    lemma_marked_set_bounded(marked);
}

/// Takes the last vertex off a non-empty worklist.
fn pop_frontier(
    worklist: &mut Vec<NodeId>,
    Ghost(adj): Ghost<Seq<Seq<NodeId>>>,
    Ghost(al): Ghost<Seq<bool>>,
    Ghost(is_source): Ghost<spec_fn(NodeId) -> bool>,
    Ghost(marked): Ghost<Seq<bool>>,
    Ghost(count): Ghost<int>,
) -> (u: NodeId)
    requires
        old(worklist)@.len() > 0,
        adj.len() <= usize::MAX,
        frontier_ok(adj, al, is_source, marked, old(worklist)@, count),
        closed_except(adj, al, marked, old(worklist)@, -1),
    ensures
        old(worklist)@ == final(worklist)@.push(u),
        frontier_ok(adj, al, is_source, marked, final(worklist)@, count),
        closed_except(adj, al, marked, final(worklist)@, u as int),
        !final(worklist)@.contains(u),
        (u as int) < adj.len(),
        marked[u as int],
        reaches(adj, al, is_source, u),
{
    let ghost wl0 = worklist@;
    let u = worklist.pop().unwrap();
    proof {
        reveal(frontier_ok);
        reveal(closed_except);
        assert(wl0 == worklist@.push(u));
        assert(wl0[wl0.len() - 1] == u);
        assert(!worklist@.contains(u)) by {
            if worklist@.contains(u) {
                let k = choose|k: int| 0 <= k < worklist@.len() && worklist@[k] == u;
                assert(wl0[k] == wl0[wl0.len() - 1]);
            }
        }
        assert forall|k: int| 0 <= k < worklist@.len() implies (#[trigger] worklist@[k] as int) < adj.len()
            && marked[worklist@[k] as int] by {
            assert(worklist@[k] == wl0[k]);
        }
        assert forall|a: int, b: int| 0 <= a < b < worklist@.len() implies worklist@[a] != worklist@[b] by {
            assert(worklist@[a] == wl0[a] && worklist@[b] == wl0[b]);
        }
        assert forall|w: NodeId| worklist@.contains(w) implies wl0.contains(w) by {
            let k = choose|k: int| 0 <= k < worklist@.len() && worklist@[k] == w;
            assert(wl0[k] == w);
        }
        assert forall|w: NodeId| wl0.contains(w) && w != u implies worklist@.contains(w) by {
            let k = choose|k: int| 0 <= k < wl0.len() && wl0[k] == w;
            assert(k < worklist@.len());
            assert(worklist@[k] == w);
        }
        assert forall|w: int, j: int|
            0 <= w < adj.len() && w != u && marked[w] && !worklist@.contains(w as NodeId) && 0 <= j
                < adj[w].len() && al[adj[w][j] as int] implies marked[#[trigger] adj[w][j] as int] by {
            assert((w as NodeId) as int == w);
            if wl0.contains(w as NodeId) {
                assert(worklist@.contains(w as NodeId));
            }
        }
    }
    u
}

/// Marks `v` and puts it on the worklist unless it is marked already.
fn try_mark(
    marked: &mut Vec<bool>,
    worklist: &mut Vec<NodeId>,
    count: &mut usize,
    v: NodeId,
    Ghost(adj): Ghost<Seq<Seq<NodeId>>>,
    Ghost(al): Ghost<Seq<bool>>,
    Ghost(is_source): Ghost<spec_fn(NodeId) -> bool>,
    Ghost(skip): Ghost<int>,
)
    requires
        (v as int) < adj.len(),
        adj.len() <= usize::MAX,
        in_range(adj),
        skip < adj.len(),
        reaches(adj, al, is_source, v),
        frontier_ok(adj, al, is_source, old(marked)@, old(worklist)@, *old(count) as int),
        closed_except(adj, al, old(marked)@, old(worklist)@, skip),
        !old(worklist)@.contains(skip as NodeId) || skip < 0,
    ensures
        frontier_ok(adj, al, is_source, final(marked)@, final(worklist)@, *final(count) as int),
        closed_except(adj, al, final(marked)@, final(worklist)@, skip),
        final(marked)@[v as int],
        forall|x: int| 0 <= x < adj.len() && old(marked)@[x] ==> #[trigger] final(marked)@[x],
        *final(count) >= *old(count),
        final(worklist)@.len() == old(worklist)@.len() + (*final(count) - *old(count)),
        !final(worklist)@.contains(skip as NodeId) || skip < 0 || skip == v,
        old(marked)@[v as int] ==> final(marked)@ == old(marked)@ && final(worklist)@ == old(
            worklist,
        )@ && *final(count) == *old(count),
{
    proof {
        reveal(frontier_ok);
    }
    if !marked[v] {
        proof {
            if skip >= 0 {
                assert((skip as NodeId) as int == skip);
            }
            lemma_marked_set_mark(marked@, v as int);
            lemma_marked_set_bounded(marked@.update(v as int, true));
        }
        let ghost m0 = marked@;
        let ghost w0 = worklist@;
        marked.set(v, true);
        worklist.push(v);
        *count = *count + 1;
        proof {
            assert(marked@ == m0.update(v as int, true));
            assert(worklist@ == w0.push(v));
            assert(worklist@[w0.len() as int] == v);
            assert forall|k: int| 0 <= k < worklist@.len() implies (#[trigger] worklist@[k] as int) < adj.len()
                && marked@[worklist@[k] as int] by {
                if k < w0.len() {
                    assert(worklist@[k] == w0[k]);
                }
            }
            assert forall|a: int, b: int| 0 <= a < b < worklist@.len() implies worklist@[a] != worklist@[b] by {
                if b == worklist@.len() - 1 {
                    assert(worklist@[a] == w0[a]);
                    assert(m0[w0[a] as int]);
                } else {
                    assert(worklist@[a] == w0[a] && worklist@[b] == w0[b]);
                }
            }
            assert forall|x: int| 0 <= x < adj.len() && #[trigger] marked@[x] implies reaches(adj, al, is_source, x as NodeId) by {
                if x != v {
                    assert(m0[x]);
                }
            }
            reveal(closed_except);
            assert forall|w: NodeId| w0.contains(w) implies worklist@.contains(w) by {
                let k = choose|k: int| 0 <= k < w0.len() && w0[k] == w;
                assert(worklist@[k] == w);
            }
            assert forall|w: NodeId| worklist@.contains(w) && w != v implies w0.contains(w) by {
                let k = choose|k: int| 0 <= k < worklist@.len() && worklist@[k] == w;
                assert(k < w0.len());
                assert(w0[k] == w);
            }
            assert forall|u: int, j: int|
                0 <= u < adj.len() && u != skip && marked@[u] && !worklist@.contains(u as NodeId) && 0 <= j
                    < adj[u].len() && al[adj[u][j] as int] implies marked@[#[trigger] adj[u][j] as int] by {
                assert(u != v);
                assert(m0[u]);
                if w0.contains(u as NodeId) {
                    assert(worklist@.contains(u as NodeId));
                }
                assert(!w0.contains(u as NodeId));
                assert(m0[adj[u][j] as int]);
                if adj[u][j] as int != v as int {
                    assert(marked@[adj[u][j] as int] == m0[adj[u][j] as int]);
                }
            }
        }
    }
}

} // verus!
