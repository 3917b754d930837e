//! Completing a build: storing the artifact and the dependencies a run recorded, rewiring
//! readers, and letting go of the run's references.
use vstd::prelude::*;

use super::Cache;
use crate::lazy::{BuildRecordDiff, EvalTracker, LazyEvalError, NodeId};
use crate::node_set::{contains_node, lemma_filter_agree, select_nodes, without_node};

verus! {

impl<A, E> Cache<A, E> {
    /// The payloads of `a` whose worker identity no payload of `b` has, in their order in `a`.
    fn without_identities_in(&self, a: &Vec<NodeId>, b: &Vec<NodeId>) -> (w: Vec<NodeId>)
        requires
            a@.no_duplicates(),
            forall|k: int| 0 <= k < a@.len() ==> (#[trigger] a@[k] as int) < self.len(),
            forall|k: int| 0 <= k < b@.len() ==> (#[trigger] b@[k] as int) < self.len(),
        ensures
            w@ == a@.filter(|d: NodeId| !self.lists_identity(b@, self.node(d as int).identity)),
            w@.no_duplicates(),
            forall|d: NodeId| #[trigger] w@.contains(d) <==> a@.contains(d) && !self.lists_identity(
                b@,
                self.node(d as int).identity,
            ),
    {
        let n = self.payloads.len();
        let mut keep: Vec<bool> = Vec::new();
        for x in 0..n
            invariant
                n == self.len(),
                keep@.len() == x,
                forall|k: int| 0 <= k < b@.len() ==> (#[trigger] b@[k] as int) < self.len(),
                forall|k: int| 0 <= k < x ==> keep@[k] == !self.lists_identity(b@, #[trigger] self.node(k).identity),
        {
            let identity = self.payloads[x].identity;
            let mut listed = false;
            for i in 0..b.len()
                invariant
                    n == self.len(),
                    identity == self.node(x as int).identity,
                    forall|k: int| 0 <= k < b@.len() ==> (#[trigger] b@[k] as int) < self.len(),
                    listed == exists|j: int| 0 <= j < i && #[trigger] self.node(b@[j] as int).identity == identity,
            {
                if self.payloads[b[i]].identity == identity {
                    assert(self.node(b@[i as int] as int).identity == identity);
                    listed = true;
                }
            }
            keep.push(!listed);
        }
        let w = select_nodes(a, &keep);
        proof {
            lemma_filter_agree(
                a@,
                |y: NodeId| keep@[y as int],
                |d: NodeId| !self.lists_identity(b@, self.node(d as int).identity),
            );
        }
        w
    }

    /// Stores a new build of `node`: its artifact and the payloads it read. Readers that are
    /// no longer alive are dropped from the payload's own readers. Returns which
    /// dependencies were added and which were removed.
    pub fn set_new_build_result(
        &mut self,
        node: NodeId,
        artifact: Result<A, LazyEvalError<E>>,
        dependencies: Vec<NodeId>,
    ) -> (diff: BuildRecordDiff)
        requires
            old(self).ids_in_range(),
            old(self).edges_unique(),
            (node as int) < old(self).len(),
            dependencies@.no_duplicates(),
            forall|k: int| 0 <= k < dependencies@.len() ==> (#[trigger] dependencies@[k] as int) < old(self).len(),
        ensures
            final(self).payloads@.len() == old(self).payloads@.len(),
            final(self).typed_caches@ == old(self).typed_caches@,
            forall|k: int| 0 <= k < old(self).len() && k != node ==> #[trigger] final(self).payloads@[k] == old(self).payloads@[k],
            final(self).node(node as int).identity == old(self).node(node as int).identity,
            final(self).node(node as int).type_key == old(self).node(node as int).type_key,
            final(self).node(node as int).rebuild_pending == old(self).node(node as int).rebuild_pending,
            final(self).node(node as int).handles == old(self).node(node as int).handles,
            final(self).node(node as int).alive == old(self).node(node as int).alive,
            final(self).node(node as int).build_record.artifact == Some(artifact),
            final(self).deps(node as int) == dependencies@,
            final(self).rdeps(node as int) == old(self).rdeps(node as int).filter(
                |r: NodeId| old(self).alive_mask()[r as int],
            ),
            final(self).rdeps(node as int).no_duplicates(),
            forall|r: NodeId| #[trigger] final(self).rdeps(node as int).contains(r) <==> old(self).rdeps(node as int).contains(r)
                && old(self).node(r as int).alive,
            diff.added_deps@ == dependencies@.filter(
                |d: NodeId| !old(self).lists_identity(old(self).deps(node as int), old(self).node(d as int).identity),
            ),
            diff.removed_deps@ == old(self).deps(node as int).filter(
                |d: NodeId| !old(self).lists_identity(dependencies@, old(self).node(d as int).identity),
            ),
            diff.added_deps@.no_duplicates(),
            diff.removed_deps@.no_duplicates(),
            forall|d: NodeId| #[trigger] diff.added_deps@.contains(d) <==> dependencies@.contains(d)
                && !old(self).lists_identity(old(self).deps(node as int), old(self).node(d as int).identity),
            forall|d: NodeId| #[trigger] diff.removed_deps@.contains(d) <==> old(self).deps(node as int).contains(d)
                && !old(self).lists_identity(dependencies@, old(self).node(d as int).identity),
            diff.added_deps@.to_set() == old(self).added_dependencies(old(self).deps(node as int), dependencies@),
            diff.removed_deps@.to_set() == old(self).removed_dependencies(old(self).deps(node as int), dependencies@),
    {
        let ghost pre = *self;
        proof {
            assert(self.deps(node as int).no_duplicates());
        }
        proof {
            assert forall|k: int| 0 <= k < self.deps(node as int).len() implies (#[trigger] self.deps(node as int)[k] as int)
                < self.len() by {}
        }
        let added_deps = self.without_identities_in(&dependencies, &self.payloads[node].build_record.dependencies);
        let removed_deps = self.without_identities_in(&self.payloads[node].build_record.dependencies, &dependencies);
        let alive = self.alive_flags();
        proof {
            assert(self.deps(node as int).no_duplicates());
            assert(self.rdeps(node as int).no_duplicates());
            assert forall|k: int| 0 <= k < self.rdeps(node as int).len() implies (#[trigger] self.rdeps(node as int)[k] as int) < alive@.len() by {
                assert((self.rdeps(node as int)[k] as int) < self.len());
            }
        }
        let readers = select_nodes(&self.payloads[node].build_record.reverse_dependencies, &alive);
        proof {
            assert((|y: NodeId| alive@[y as int]) =~= (|r: NodeId| pre.alive_mask()[r as int]));
        }
        self.payloads[node].build_record.dependencies = dependencies;
        self.payloads[node].build_record.artifact = Some(artifact);
        self.payloads[node].build_record.reverse_dependencies = readers;
        proof {
            assert forall|k: int| 0 <= k < pre.len() && k != node implies #[trigger] self.payloads@[k] == pre.payloads@[k] by {}
            assert forall|r: NodeId| #[trigger] self.rdeps(node as int).contains(r) <==> pre.rdeps(node as int).contains(r)
                && pre.node(r as int).alive by {
                if pre.rdeps(node as int).contains(r) {
                    let k = choose|k: int| 0 <= k < pre.rdeps(node as int).len() && pre.rdeps(node as int)[k] == r;
                    assert((pre.rdeps(node as int)[k] as int) < pre.len());
                }
            }
            assert(added_deps@.to_set() =~= pre.added_dependencies(pre.deps(node as int), self.deps(node as int)));
            assert(removed_deps@.to_set() =~= pre.removed_dependencies(pre.deps(node as int), self.deps(node as int)));
        }
        BuildRecordDiff { added_deps, removed_deps }
    }

    /// Removes `node` from the readers of every payload listed in `payloads`.
    pub(super) fn unhook_reader(&mut self, payloads: &Vec<NodeId>, node: NodeId)
        requires
            old(self).len() <= usize::MAX,
            forall|k: int| 0 <= k < payloads@.len() ==> (#[trigger] payloads@[k] as int) < old(self).len(),
            forall|n: int| 0 <= n < old(self).len() ==> (#[trigger] old(self).rdeps(n)).no_duplicates(),
        ensures
            final(self).payloads@.len() == old(self).payloads@.len(),
            final(self).typed_caches@ == old(self).typed_caches@,
            forall|k: int| 0 <= k < old(self).len() ==> (#[trigger] final(self).payloads@[k]).same_but_readers(&old(self).payloads@[k]),
            forall|n: int| 0 <= n < old(self).len() ==> (#[trigger] final(self).rdeps(n)).no_duplicates(),
            forall|n: int, r: NodeId| 0 <= n < old(self).len() ==> (#[trigger] final(self).rdeps(n).contains(r)
                <==> old(self).rdeps(n).contains(r) && !(r == node && payloads@.contains(n as NodeId))),
    {
        let ghost pre = *self;
        for i in 0..payloads.len()
            invariant
                pre.len() <= usize::MAX,
                forall|k: int| 0 <= k < payloads@.len() ==> (#[trigger] payloads@[k] as int) < pre.len(),
                self.payloads@.len() == pre.payloads@.len(),
                self.typed_caches@ == pre.typed_caches@,
                forall|k: int| 0 <= k < pre.len() ==> (#[trigger] self.payloads@[k]).same_but_readers(&pre.payloads@[k]),
                forall|n: int| 0 <= n < pre.len() ==> (#[trigger] self.rdeps(n)).no_duplicates(),
                forall|n: int, r: NodeId| 0 <= n < pre.len() ==> (#[trigger] self.rdeps(n).contains(r)
                    <==> pre.rdeps(n).contains(r) && !(r == node && exists|k: int| 0 <= k < i && payloads@[k] == n as NodeId)),
        {
            let d = payloads[i];
            proof {
                assert(payloads@[i as int] == d);
                assert(self.rdeps(d as int).no_duplicates());
            }
            let ghost before = *self;
            let readers = without_node(&self.payloads[d].build_record.reverse_dependencies, node);
            self.payloads[d].build_record.reverse_dependencies = readers;
            proof {
                assert forall|k: int| 0 <= k < pre.len() implies (#[trigger] self.payloads@[k]).same_but_readers(&pre.payloads@[k]) by {
                    assert(before.payloads@[k].same_but_readers(&pre.payloads@[k]));
                    if k != d {
                        assert(self.payloads@[k] == before.payloads@[k]);
                    }
                }
                assert forall|n: int| 0 <= n < pre.len() implies (#[trigger] self.rdeps(n)).no_duplicates() by {
                    assert(before.rdeps(n).no_duplicates());
                    if n != d {
                        assert(self.payloads@[n] == before.payloads@[n]);
                    }
                }
                assert forall|n: int, r: NodeId| 0 <= n < pre.len() implies (#[trigger] self.rdeps(n).contains(r)
                    <==> pre.rdeps(n).contains(r) && !(r == node && exists|k: int| 0 <= k < i + 1 && payloads@[k] == n as NodeId)) by {
                    assert(before.rdeps(n).contains(r) <==> pre.rdeps(n).contains(r) && !(r == node && exists|k: int| 0 <= k < i && payloads@[k] == n as NodeId));
                    if n != d {
                        assert(self.payloads@[n] == before.payloads@[n]);
                        if exists|k: int| 0 <= k < i + 1 && payloads@[k] == n as NodeId {
                            let k = choose|k: int| 0 <= k < i + 1 && payloads@[k] == n as NodeId;
                            assert((n as NodeId) as int == n);
                            assert(k != i);
                        }
                    } else {
                        assert(payloads@[i as int] == n as NodeId);
                    }
                }
            }
        }
        proof {
            assert forall|n: int, r: NodeId| 0 <= n < pre.len() implies (#[trigger] self.rdeps(n).contains(r)
                <==> pre.rdeps(n).contains(r) && !(r == node && payloads@.contains(n as NodeId))) by {
                assert((n as NodeId) as int == n);
                if payloads@.contains(n as NodeId) {
                    let k = choose|k: int| 0 <= k < payloads@.len() && payloads@[k] == n as NodeId;
                    assert(exists|k2: int| 0 <= k2 < payloads@.len() && payloads@[k2] == n as NodeId);
                }
            }
        }
    }

    /// Adds `node` to the readers of every payload listed in `payloads` that lacks it.
    pub(super) fn hook_reader(&mut self, payloads: &Vec<NodeId>, node: NodeId)
        requires
            old(self).len() <= usize::MAX,
            forall|k: int| 0 <= k < payloads@.len() ==> (#[trigger] payloads@[k] as int) < old(self).len(),
            forall|n: int| 0 <= n < old(self).len() ==> (#[trigger] old(self).rdeps(n)).no_duplicates(),
        ensures
            final(self).payloads@.len() == old(self).payloads@.len(),
            final(self).typed_caches@ == old(self).typed_caches@,
            forall|k: int| 0 <= k < old(self).len() ==> (#[trigger] final(self).payloads@[k]).same_but_readers(&old(self).payloads@[k]),
            forall|n: int| 0 <= n < old(self).len() ==> (#[trigger] final(self).rdeps(n)).no_duplicates(),
            forall|n: int, r: NodeId| 0 <= n < old(self).len() ==> (#[trigger] final(self).rdeps(n).contains(r)
                <==> old(self).rdeps(n).contains(r) || (r == node && payloads@.contains(n as NodeId))),
    {
        let ghost pre = *self;
        for i in 0..payloads.len()
            invariant
                pre.len() <= usize::MAX,
                forall|k: int| 0 <= k < payloads@.len() ==> (#[trigger] payloads@[k] as int) < pre.len(),
                self.payloads@.len() == pre.payloads@.len(),
                self.typed_caches@ == pre.typed_caches@,
                forall|k: int| 0 <= k < pre.len() ==> (#[trigger] self.payloads@[k]).same_but_readers(&pre.payloads@[k]),
                forall|n: int| 0 <= n < pre.len() ==> (#[trigger] self.rdeps(n)).no_duplicates(),
                forall|n: int, r: NodeId| 0 <= n < pre.len() ==> (#[trigger] self.rdeps(n).contains(r)
                    <==> pre.rdeps(n).contains(r) || (r == node && exists|k: int| 0 <= k < i && payloads@[k] == n as NodeId)),
        {
            let d = payloads[i];
            proof {
                assert(payloads@[i as int] == d);
            }
            let ghost before = *self;
            if !contains_node(&self.payloads[d].build_record.reverse_dependencies, node) {
                self.payloads[d].build_record.reverse_dependencies.push(node);
                proof {
                    let r0 = before.rdeps(d as int);
                    assert(self.rdeps(d as int) == r0.push(node));
                    assert(r0.no_duplicates());
                    assert forall|a: int, b: int| 0 <= a < b < r0.push(node).len() implies r0.push(node)[a] != r0.push(node)[b] by {
                        if b == r0.len() {
                            assert(r0.contains(r0.push(node)[a]));
                        }
                    }
                    assert forall|r: NodeId| #[trigger] self.rdeps(d as int).contains(r) <==> r0.contains(r) || r == node by {
                        if r0.contains(r) {
                            let k = choose|k: int| 0 <= k < r0.len() && r0[k] == r;
                            assert(self.rdeps(d as int)[k] == r);
                        }
                        if self.rdeps(d as int).contains(r) && r != node {
                            let k = choose|k: int| 0 <= k < self.rdeps(d as int).len() && self.rdeps(d as int)[k] == r;
                            assert(r0[k] == r);
                        }
                        if r == node {
                            assert(self.rdeps(d as int)[r0.len() as int] == node);
                        }
                    }
                }
            }
            proof {
                assert forall|k: int| 0 <= k < pre.len() implies (#[trigger] self.payloads@[k]).same_but_readers(&pre.payloads@[k]) by {
                    assert(before.payloads@[k].same_but_readers(&pre.payloads@[k]));
                    if k != d {
                        assert(self.payloads@[k] == before.payloads@[k]);
                    }
                }
                assert forall|n: int| 0 <= n < pre.len() implies (#[trigger] self.rdeps(n)).no_duplicates() by {
                    assert(before.rdeps(n).no_duplicates());
                    if n != d {
                        assert(self.payloads@[n] == before.payloads@[n]);
                    }
                }
                assert forall|n: int, r: NodeId| 0 <= n < pre.len() implies (#[trigger] self.rdeps(n).contains(r)
                    <==> pre.rdeps(n).contains(r) || (r == node && exists|k: int| 0 <= k < i + 1 && payloads@[k] == n as NodeId)) by {
                    assert(before.rdeps(n).contains(r) <==> pre.rdeps(n).contains(r) || (r == node && exists|k: int| 0 <= k < i && payloads@[k] == n as NodeId));
                    if n != d {
                        assert(self.payloads@[n] == before.payloads@[n]);
                        if exists|k: int| 0 <= k < i + 1 && payloads@[k] == n as NodeId {
                            let k = choose|k: int| 0 <= k < i + 1 && payloads@[k] == n as NodeId;
                            assert((n as NodeId) as int == n);
                            assert(k != i);
                        }
                    } else {
                        assert(payloads@[i as int] == n as NodeId);
                        if r == node {
                            assert(before.rdeps(n).contains(r) ==> self.rdeps(n).contains(r));
                        }
                    }
                }
            }
        }
        proof {
            assert forall|n: int, r: NodeId| 0 <= n < pre.len() implies (#[trigger] self.rdeps(n).contains(r)
                <==> pre.rdeps(n).contains(r) || (r == node && payloads@.contains(n as NodeId))) by {
                assert((n as NodeId) as int == n);
                if payloads@.contains(n as NodeId) {
                    let k = choose|k: int| 0 <= k < payloads@.len() && payloads@[k] == n as NodeId;
                    assert(exists|k2: int| 0 <= k2 < payloads@.len() && payloads@[k2] == n as NodeId);
                }
            }
        }
    }

    /// A build of `node` that reads `new_deps` reads a payload whose worker has the identity of
    /// a different payload that the previous build read. Dependencies are compared by worker
    /// identity, so neither payload has its readers updated.
    pub open spec fn identity_clash(&self, node: NodeId, new_deps: Seq<NodeId>) -> bool {
        exists|i: int, j: int|
            #![trigger self.deps(node as int)[i], new_deps[j]]
            0 <= i < self.deps(node as int).len() && 0 <= j < new_deps.len() && self.deps(node as int)[i]
                != new_deps[j] && self.node(self.deps(node as int)[i] as int).identity == self.node(
                new_deps[j] as int,
            ).identity
    }

    /// Whether, after `node` is rebuilt with dependencies `new_deps`, payload `d` lists `r`
    /// among its readers: `node` is taken off the readers of the payloads it dropped and put
    /// on those of the payloads it added, both compared by worker identity, and `node`
    /// forgets readers that are no longer alive.
    pub open spec fn reader_after_build(&self, node: NodeId, new_deps: Seq<NodeId>, d: int, r: NodeId) -> bool {
        let kept = if d == node as int {
            self.rdeps(d).contains(r) && self.node(r as int).alive
        } else {
            self.rdeps(d).contains(r)
        };
        let identity = self.node(d).identity;
        let removed = self.deps(node as int).contains(d as NodeId) && !self.lists_identity(new_deps, identity);
        let added = new_deps.contains(d as NodeId) && !self.lists_identity(self.deps(node as int), identity);
        if r == node {
            (kept && !removed) || added
        } else {
            kept
        }
    }

    /// The handle count of payload `k` once a run of `node` that read `new_deps` has let go
    /// of `node` and of everything it read.
    pub open spec fn handles_after_build(&self, node: NodeId, new_deps: Seq<NodeId>, k: int) -> int {
        self.node(k).handles - (if k == node as int { 1int } else { 0int }) - (if new_deps.contains(
            k as NodeId,
        ) {
            1int
        } else {
            0int
        })
    }

    /// Lets go of the reference a run held on `node` and of those its tracker held on each
    /// dependency of `node`.
    pub(super) fn drop_run_references(&mut self, node: NodeId)
        requires
            old(self).len() <= usize::MAX,
            (node as int) < old(self).len(),
            old(self).deps(node as int).no_duplicates(),
            forall|k: int| 0 <= k < old(self).deps(node as int).len() ==> (#[trigger] old(self).deps(node as int)[k] as int) < old(self).len(),
            forall|k: int| 0 <= k < old(self).len() ==> old(self).handles_after_build(node, old(self).deps(node as int), k) >= 0,
        ensures
            final(self).payloads@.len() == old(self).payloads@.len(),
            final(self).typed_caches@ == old(self).typed_caches@,
            forall|k: int| 0 <= k < old(self).len() ==> (#[trigger] final(self).payloads@[k]).same_but_handles(&old(self).payloads@[k]),
            forall|k: int| 0 <= k < old(self).len() ==> #[trigger] final(self).node(k).handles == old(self).handles_after_build(
                node,
                old(self).deps(node as int),
                k,
            ),
    {
        let ghost pre = *self;
        let ghost ds = pre.deps(node as int);
        let h = self.payloads[node].handles;
        proof {
            assert(pre.handles_after_build(node, ds, node as int) >= 0);
        }
        self.payloads[node].handles = h - 1;
        let count = self.payloads[node].build_record.dependencies.len();
        for i in 0..count
            invariant
                pre.len() <= usize::MAX,
                (node as int) < pre.len(),
                count == ds.len(),
                ds.no_duplicates(),
                ds == pre.deps(node as int),
                forall|k: int| 0 <= k < ds.len() ==> (#[trigger] ds[k] as int) < pre.len(),
                forall|k: int| 0 <= k < pre.len() ==> pre.handles_after_build(node, ds, k) >= 0,
                self.payloads@.len() == pre.payloads@.len(),
                self.typed_caches@ == pre.typed_caches@,
                forall|k: int| 0 <= k < pre.len() ==> (#[trigger] self.payloads@[k]).same_but_handles(&pre.payloads@[k]),
                forall|k: int| 0 <= k < pre.len() ==> #[trigger] self.node(k).handles == pre.node(k).handles - (if k == node as int { 1int } else { 0int }) - (if exists|j: int| 0 <= j < i && ds[j] == k as NodeId { 1int } else { 0int }),
        {
            proof {
                assert(self.payloads@[node as int].same_but_handles(&pre.payloads@[node as int]));
            }
            let d = self.payloads[node].build_record.dependencies[i];
            proof {
                assert(ds[i as int] == d);
                assert(ds.contains(d));
                assert(!(exists|j: int| 0 <= j < i && ds[j] == d)) by {
                    if exists|j: int| 0 <= j < i && ds[j] == d {
                        let j = choose|j: int| 0 <= j < i && ds[j] == d;
                        assert(ds[j] == ds[i as int]);
                    }
                }
                assert(pre.handles_after_build(node, ds, d as int) >= 0);
                assert((d as NodeId) as int == d as int);
            }
            let ghost before = *self;
            let hd = self.payloads[d].handles;
            proof {
                assert(self.node(d as int).handles == hd);
                assert(hd == pre.node(d as int).handles - (if d == node { 1int } else { 0int }));
            }
            self.payloads[d].handles = hd - 1;
            proof {
                assert forall|k: int| 0 <= k < pre.len() implies (#[trigger] self.payloads@[k]).same_but_handles(&pre.payloads@[k]) by {
                    assert(before.payloads@[k].same_but_handles(&pre.payloads@[k]));
                    if k != d {
                        assert(self.payloads@[k] == before.payloads@[k]);
                    }
                }
                assert forall|k: int| 0 <= k < pre.len() implies #[trigger] self.node(k).handles == pre.node(k).handles - (if k == node as int { 1int } else { 0int }) - (if exists|j: int| 0 <= j < i + 1 && ds[j] == k as NodeId { 1int } else { 0int }) by {
                    assert((k as NodeId) as int == k);
                    assert(before.node(k).handles == pre.node(k).handles - (if k == node as int { 1int } else { 0int }) - (if exists|j: int| 0 <= j < i && ds[j] == k as NodeId { 1int } else { 0int }));
                    if k != d {
                        assert(self.payloads@[k] == before.payloads@[k]);
                        if exists|j: int| 0 <= j < i + 1 && ds[j] == k as NodeId {
                            let j = choose|j: int| 0 <= j < i + 1 && ds[j] == k as NodeId;
                            assert(j != i);
                            assert(exists|j2: int| 0 <= j2 < i && ds[j2] == k as NodeId);
                        }
                        if exists|j: int| 0 <= j < i && ds[j] == k as NodeId {
                            let j = choose|j: int| 0 <= j < i && ds[j] == k as NodeId;
                            assert(exists|j2: int| 0 <= j2 < i + 1 && ds[j2] == k as NodeId);
                        }
                    } else {
                        assert(ds[i as int] == k as NodeId);
                        assert(self.node(k).handles == hd - 1);
                    }
                }
            }
        }
        proof {
            assert forall|k: int| 0 <= k < pre.len() implies #[trigger] self.node(k).handles == pre.handles_after_build(node, ds, k) by {
                assert((k as NodeId) as int == k);
                if ds.contains(k as NodeId) {
                    let j = choose|j: int| 0 <= j < ds.len() && ds[j] == k as NodeId;
                    assert(exists|j2: int| 0 <= j2 < count && ds[j2] == k as NodeId);
                }
            }
        }
    }

    /// Completes a run of a worker: stores its artifact and the dependencies its tracker
    /// recorded, rewires the readers of the dependencies added and dropped, lets go of the
    /// references the run and its tracker held (payloads left unreferenced are freed), and,
    /// if the payload was invalidated while the worker ran, invalidates it again together
    /// with its readers. Returns `false`, without that invalidation, exactly when it would
    /// never end: the payload reaches a cycle of readers.
    pub fn finish_eval(&mut self, tracker: EvalTracker, artifact: Result<A, LazyEvalError<E>>) -> (completed: bool)
        requires
            old(self).wf(),
            (tracker.current_ref as int) < old(self).len(),
            tracker.dependencies@.no_duplicates(),
            forall|k: int| 0 <= k < tracker.dependencies@.len() ==> (#[trigger] tracker.dependencies@[k] as int) < old(self).len(),
            forall|k: int| 0 <= k < old(self).len() ==> old(self).handles_after_build(tracker.current_ref, tracker.dependencies@, k) >= 0,
        ensures
            final(self).wf(),
            old(self).readers_consistent() && !old(self).identity_clash(tracker.current_ref, tracker.dependencies@)
                ==> final(self).readers_consistent(),
            final(self).payloads@.len() == old(self).payloads@.len(),
            final(self).typed_caches@ == old(self).typed_caches@,
            final(self).alive_is_largest_supported_in(old(self).alive_set()),
            completed == !(old(self).node(tracker.current_ref as int).rebuild_pending && final(self).invalidation_loops(
                tracker.current_ref,
            )),
            final(self).node(tracker.current_ref as int).alive ==> final(self).node(
                tracker.current_ref as int,
            ).build_record.artifact == Some(artifact) && final(self).deps(tracker.current_ref as int)
                == tracker.dependencies@,
            forall|k: int| 0 <= k < old(self).len() ==> {
                &&& #[trigger] final(self).node(k).identity == old(self).node(k).identity
                &&& final(self).node(k).type_key == old(self).node(k).type_key
                &&& final(self).node(k).handles == old(self).handles_after_build(tracker.current_ref, tracker.dependencies@, k)
                &&& (final(self).node(k).alive ==> old(self).node(k).alive)
                &&& final(self).node(k).rebuild_pending == (old(self).node(k).rebuild_pending || (completed && old(
                    self,
                ).node(tracker.current_ref as int).rebuild_pending && final(self).reads_transitively(
                    tracker.current_ref,
                    k as NodeId,
                )))
                &&& (k != tracker.current_ref && final(self).node(k).alive ==> final(self).deps(k) == old(self).deps(k)
                    && final(self).node(k).build_record.artifact == old(self).node(k).build_record.artifact)
                &&& (!final(self).node(k).alive ==> final(self).node(k).build_record.artifact is None
                    && final(self).deps(k).len() == 0)
            },
            forall|d: int, r: NodeId|
                0 <= d < old(self).len() ==> (#[trigger] final(self).rdeps(d).contains(r)
                    <==> old(self).reader_after_build(tracker.current_ref, tracker.dependencies@, d, r)),
    {
        let node = tracker.current_ref;
        let ghost pre = *self;
        let ghost new_deps = tracker.dependencies@;
        proof {
            assert(pre.node(node as int).handles > 0) by {
                assert(pre.handles_after_build(node, new_deps, node as int) >= 0);
            }
            pre.lemma_held_reached(node);
            assert(pre.node(node as int).alive);
        }
        let diff = self.set_new_build_result(node, artifact, tracker.dependencies);
        let ghost after_set = *self;
        proof {
            assert forall|k: int| 0 <= k < diff.removed_deps@.len() implies (#[trigger] diff.removed_deps@[k] as int) < self.len() by {
                assert(diff.removed_deps@.contains(diff.removed_deps@[k]));
                let j = choose|j: int| 0 <= j < pre.deps(node as int).len() && pre.deps(node as int)[j] == diff.removed_deps@[k];
                assert((pre.deps(node as int)[j] as int) < pre.len());
            }
            assert forall|k: int| 0 <= k < diff.added_deps@.len() implies (#[trigger] diff.added_deps@[k] as int) < self.len() by {
                assert(diff.added_deps@.contains(diff.added_deps@[k]));
                let j = choose|j: int| 0 <= j < new_deps.len() && new_deps[j] == diff.added_deps@[k];
                assert((new_deps[j] as int) < pre.len());
            }
            assert forall|n: int| 0 <= n < self.len() implies (#[trigger] self.rdeps(n)).no_duplicates() by {
                if n != node {
                    assert(self.payloads@[n] == pre.payloads@[n]);
                    assert(pre.deps(n).no_duplicates());
                    assert(pre.rdeps(n).no_duplicates());
                }
            }
        }
        self.unhook_reader(&diff.removed_deps, node);
        let ghost after_unhook = *self;
        self.hook_reader(&diff.added_deps, node);
        let ghost wired = *self;
        proof {
            assert forall|k: int| 0 <= k < pre.len() implies (#[trigger] wired.payloads@[k]).same_but_readers(&after_set.payloads@[k]) by {
                assert(wired.payloads@[k].same_but_readers(&after_unhook.payloads@[k]));
                assert(after_unhook.payloads@[k].same_but_readers(&after_set.payloads@[k]));
            }
            assert forall|d: int, r: NodeId| 0 <= d < pre.len() implies (#[trigger] wired.rdeps(d).contains(r)
                <==> pre.reader_after_build(node, new_deps, d, r)) by {
                assert(wired.rdeps(d).contains(r) <==> after_unhook.rdeps(d).contains(r) || (r == node && diff.added_deps@.contains(d as NodeId)));
                assert(after_unhook.rdeps(d).contains(r) <==> after_set.rdeps(d).contains(r) && !(r == node && diff.removed_deps@.contains(d as NodeId)));
                if d != node {
                    assert(after_set.payloads@[d] == pre.payloads@[d]);
                } else {
                    assert(after_set.rdeps(d).contains(r) <==> pre.rdeps(d).contains(r) && pre.node(r as int).alive);
                }
            }
            assert(wired.deps(node as int) == new_deps);
            assert forall|k: int| 0 <= k < pre.len() implies #[trigger] wired.handles_after_build(node, wired.deps(node as int), k)
                == pre.handles_after_build(node, new_deps, k) by {
                assert(wired.payloads@[k].same_but_readers(&after_set.payloads@[k]));
                if k != node {
                    assert(after_set.payloads@[k] == pre.payloads@[k]);
                }
            }
            assert(wired.deps(node as int).no_duplicates());
            assert forall|k: int| 0 <= k < wired.deps(node as int).len() implies (#[trigger] wired.deps(node as int)[k] as int) < wired.len() by {
                assert(new_deps[k] == wired.deps(node as int)[k]);
            }
        }
        self.drop_run_references(node);
        let ghost dropped = *self;
        proof {
            assert forall|k: int| 0 <= k < pre.len() implies {
                &&& #[trigger] dropped.node(k).identity == pre.node(k).identity
                &&& dropped.node(k).type_key == pre.node(k).type_key
                &&& dropped.deps(k) == (if k == node as int { new_deps } else { pre.deps(k) })
                &&& dropped.node(k).handles == pre.handles_after_build(node, new_deps, k)
                &&& dropped.rdeps(k).no_duplicates()
            } by {
                assert(dropped.payloads@[k].same_but_handles(&wired.payloads@[k]));
                assert(wired.payloads@[k].same_but_readers(&after_set.payloads@[k]));
                assert(wired.rdeps(k).no_duplicates());
                if k != node {
                    assert(after_set.payloads@[k] == pre.payloads@[k]);
                }
            }
            assert forall|d: int, r: NodeId| 0 <= d < pre.len() implies (#[trigger] dropped.rdeps(d).contains(r)
                <==> pre.reader_after_build(node, new_deps, d, r)) by {
                assert(dropped.payloads@[d].same_but_handles(&wired.payloads@[d]));
                assert(wired.rdeps(d).contains(r) <==> pre.reader_after_build(node, new_deps, d, r));
            }
            assert forall|k: int| 0 <= k < pre.len() implies {
                &&& #[trigger] dropped.deps(k) == (if k == node as int { new_deps } else { pre.deps(k) })
                &&& dropped.rdeps(k).no_duplicates()
            } by {
                assert(dropped.node(k).identity == pre.node(k).identity);
            }
            dropped.lemma_rewired_ranges(&pre, node, new_deps);
            assert forall|k: int| 0 <= k < pre.len() implies #[trigger] dropped.node(k).alive == pre.node(k).alive by {
                assert(dropped.payloads@[k].same_but_handles(&wired.payloads@[k]));
                assert(wired.payloads@[k].same_but_readers(&after_set.payloads@[k]));
                if k != node {
                    assert(after_set.payloads@[k] == pre.payloads@[k]);
                }
            }
            assert forall|v: int| 0 <= v < dropped.len() && #[trigger] dropped.node(v).handles > 0 implies dropped.node(v).alive by {
                assert(dropped.node(v).identity == pre.node(v).identity);
                assert(pre.node(v).handles > 0);
                pre.lemma_held_reached(v as NodeId);
            }
            assert forall|p: int, d: NodeId|
                0 <= p < dropped.len() && dropped.node(p).alive && #[trigger] dropped.deps(p).contains(d) implies dropped.node(
                    d as int,
                ).alive by {
                assert(dropped.node(p).identity == pre.node(p).identity);
                if p == node {
                    let j = choose|j: int| 0 <= j < new_deps.len() && new_deps[j] == d;
                    assert((new_deps[j] as int) < pre.len());
                    assert(pre.handles_after_build(node, new_deps, d as int) >= 0);
                    assert(pre.node(d as int).handles > 0);
                    pre.lemma_held_reached(d);
                } else {
                    let j = choose|j: int| 0 <= j < pre.deps(p).len() && pre.deps(p)[j] == d;
                    assert((pre.deps(p)[j] as int) < pre.len());
                    assert(pre.deps(p).contains(d));
                }
                assert(dropped.node(d as int).identity == pre.node(d as int).identity);
            }
        }
        self.settle_liveness();
        let ghost recomputed = *self;
        proof {
            assert forall|k: int| 0 <= k < pre.len() implies {
                &&& #[trigger] recomputed.node(k).identity == pre.node(k).identity
                &&& recomputed.node(k).type_key == pre.node(k).type_key
                &&& recomputed.deps(k) == (if k == node as int { new_deps } else { pre.deps(k) })
                &&& recomputed.node(k).handles == pre.handles_after_build(node, new_deps, k)
                &&& recomputed.rdeps(k).no_duplicates()
            } by {
                assert(recomputed.payloads@[k].same_but_liveness(&dropped.payloads@[k]));
                assert(dropped.node(k).identity == pre.node(k).identity);
            }
            assert forall|d: int, r: NodeId| 0 <= d < pre.len() implies (#[trigger] recomputed.rdeps(d).contains(r)
                <==> pre.reader_after_build(node, new_deps, d, r)) by {
                assert(recomputed.payloads@[d].same_but_liveness(&dropped.payloads@[d]));
                assert(dropped.rdeps(d).contains(r) <==> pre.reader_after_build(node, new_deps, d, r));
            }
            assert forall|k: int| 0 <= k < pre.len() && #[trigger] recomputed.node(k).alive implies pre.node(k).alive by {
                assert(recomputed.alive_set().contains(k as NodeId));
                assert(dropped.node(k).alive == pre.node(k).alive);
            }
            recomputed.lemma_rewired_wf(&pre, node, new_deps);
        }
        let mut completed = true;
        if self.payloads[node].rebuild_pending {
            if self.invalidation_terminates(node) {
                self.invalidate(node);
            } else {
                completed = false;
            }
        }
        proof {
            let fin = *self;
            if completed && recomputed.node(node as int).rebuild_pending {
                assert forall|k: int| 0 <= k < pre.len() implies (#[trigger] fin.payloads@[k]).same_structure(&recomputed.payloads@[k]) by {
                    assert(fin.payloads@[k] == recomputed.payloads@[k].with_pending(
                        recomputed.payloads@[k].rebuild_pending || recomputed.reads_transitively(node, k as NodeId),
                    ));
                }
                fin.lemma_same_structure(&recomputed);
                fin.lemma_same_loops(&recomputed);
            }
            assert forall|k: int| 0 <= k < pre.len() implies {
                &&& #[trigger] fin.node(k).identity == pre.node(k).identity
                &&& fin.node(k).type_key == pre.node(k).type_key
                &&& fin.node(k).handles == pre.handles_after_build(node, new_deps, k)
                &&& (fin.node(k).alive ==> pre.node(k).alive)
                &&& fin.node(k).rebuild_pending == (pre.node(k).rebuild_pending || (completed && pre.node(node as int).rebuild_pending
                    && fin.reads_transitively(node, k as NodeId)))
                &&& (k != node ==> fin.deps(k) == pre.deps(k) && fin.node(k).build_record.artifact
                    == pre.node(k).build_record.artifact)
            } by {
                assert(recomputed.payloads@[k].same_but_liveness(&dropped.payloads@[k]));
                assert(dropped.payloads@[k].same_but_handles(&wired.payloads@[k]));
                assert(wired.payloads@[k].same_but_readers(&after_set.payloads@[k]));
                assert(dropped.node(k).handles == wired.handles_after_build(node, wired.deps(node as int), k));
                if k != node {
                    assert(after_set.payloads@[k] == pre.payloads@[k]);
                }
                if completed && recomputed.node(node as int).rebuild_pending {
                    assert(fin.payloads@[k] == recomputed.payloads@[k].with_pending(
                        recomputed.payloads@[k].rebuild_pending || recomputed.reads_transitively(node, k as NodeId),
                    ));
                }
            }
            assert forall|d: int, r: NodeId| 0 <= d < pre.len() implies (#[trigger] fin.rdeps(d).contains(r)
                <==> pre.reader_after_build(node, new_deps, d, r)) by {
                assert(recomputed.payloads@[d].same_but_liveness(&dropped.payloads@[d]));
                assert(dropped.payloads@[d].same_but_handles(&wired.payloads@[d]));
                assert(wired.rdeps(d).contains(r) <==> pre.reader_after_build(node, new_deps, d, r));
                if completed && recomputed.node(node as int).rebuild_pending {
                    assert(fin.payloads@[d] == recomputed.payloads@[d].with_pending(
                        recomputed.payloads@[d].rebuild_pending || recomputed.reads_transitively(node, d as NodeId),
                    ));
                }
            }
        }
        let ghost invalidated = *self;
        self.drop_dead_build_records();
        proof {
            let fin = *self;
            assert forall|k: int| 0 <= k < pre.len() implies {
                &&& #[trigger] fin.node(k).identity == pre.node(k).identity
                &&& fin.node(k).type_key == pre.node(k).type_key
                &&& fin.node(k).handles == pre.handles_after_build(node, new_deps, k)
                &&& (fin.node(k).alive ==> pre.node(k).alive)
                &&& fin.node(k).rebuild_pending == (pre.node(k).rebuild_pending || (completed && pre.node(node as int).rebuild_pending
                    && fin.reads_transitively(node, k as NodeId)))
                &&& (k != node && fin.node(k).alive ==> fin.deps(k) == pre.deps(k)
                    && fin.node(k).build_record.artifact == pre.node(k).build_record.artifact)
                &&& (!fin.node(k).alive ==> fin.node(k).build_record.artifact is None && fin.deps(k).len() == 0)
            } by {
                assert(fin.payloads@[k].settled_from(&invalidated.payloads@[k]));
                assert(invalidated.node(k).identity == pre.node(k).identity);
                assert(fin.reads_transitively(node, k as NodeId) == invalidated.reads_transitively(node, k as NodeId));
            }
            assert(fin.payloads@[node as int].settled_from(&invalidated.payloads@[node as int]));
            assert forall|d: int, r: NodeId| 0 <= d < pre.len() implies (#[trigger] fin.rdeps(
                d,
            ).contains(r) <==> pre.reader_after_build(node, new_deps, d, r)) by {
                assert(fin.payloads@[d].settled_from(&invalidated.payloads@[d]));
                assert(invalidated.rdeps(d).contains(r) <==> pre.reader_after_build(node, new_deps, d, r));
            }
            assert(fin.invalidation_loops(node) == recomputed.invalidation_loops(node));
            assert(dropped.alive_set() =~= pre.alive_set()) by {
                assert forall|v: NodeId| dropped.alive_set().contains(v) == pre.alive_set().contains(v) by {
                    if (v as int) < pre.len() {
                        assert(dropped.node(v as int).alive == pre.node(v as int).alive);
                    }
                }
            }
            assert(invalidated.alive_set() =~= recomputed.alive_set()) by {
                assert forall|v: NodeId| invalidated.alive_set().contains(v) == recomputed.alive_set().contains(v) by {
                    if (v as int) < pre.len() {
                        assert(invalidated.node(v as int).identity == pre.node(v as int).identity);
                        if completed && recomputed.node(node as int).rebuild_pending {
                            assert(invalidated.payloads@[v as int].same_structure(&recomputed.payloads@[v as int]));
                        }
                    }
                }
            }
            assert forall|st: Set<NodeId>| st.subset_of(pre.alive_set()) && #[trigger] fin.self_supporting(st) implies st.subset_of(
                fin.alive_set(),
            ) by {
                assert(invalidated.self_supporting(st));
                assert forall|k: int| 0 <= k < pre.len() implies #[trigger] invalidated.deps(k) == recomputed.deps(k)
                    && invalidated.node(k).handles == recomputed.node(k).handles by {
                    assert(invalidated.node(k).identity == pre.node(k).identity);
                    if completed && recomputed.node(node as int).rebuild_pending {
                        assert(invalidated.payloads@[k].same_structure(&recomputed.payloads@[k]));
                    }
                }
                invalidated.lemma_same_support(&recomputed, st);
            }
        }
        completed
    }

    /// The ids and uniqueness of edges after a payload is rewired to new dependencies.
    pub(super) proof fn lemma_rewired_ranges(&self, pre: &Self, node: NodeId, new_deps: Seq<NodeId>)
        requires
            pre.wf(),
            (node as int) < pre.len(),
            new_deps.no_duplicates(),
            forall|k: int| 0 <= k < new_deps.len() ==> (#[trigger] new_deps[k] as int) < pre.len(),
            self.payloads@.len() == pre.payloads@.len(),
            forall|k: int| 0 <= k < pre.len() ==> {
                &&& #[trigger] self.deps(k) == (if k == node as int { new_deps } else { pre.deps(k) })
                &&& self.rdeps(k).no_duplicates()
            },
            forall|d: int, r: NodeId| 0 <= d < pre.len() ==> (#[trigger] self.rdeps(d).contains(r)
                <==> pre.reader_after_build(node, new_deps, d, r)),
        ensures
            self.ids_in_range(),
            self.edges_unique(),
    {
        assert forall|n: int, j: int| 0 <= n < self.len() && 0 <= j < self.deps(n).len() implies (
        #[trigger] self.deps(n)[j] as int) < self.len() by {
            if n != node {
                assert(self.deps(n) == pre.deps(n));
            } else {
                assert(self.deps(n) == new_deps);
            }
        }
        assert forall|n: int, j: int| 0 <= n < self.len() && 0 <= j < self.rdeps(n).len() implies (
        #[trigger] self.rdeps(n)[j] as int) < self.len() by {
            let r = self.rdeps(n)[j];
            assert(self.rdeps(n).contains(r));
            assert(pre.reader_after_build(node, new_deps, n, r));
            if r != node {
                assert(pre.rdeps(n).contains(r));
                let i = choose|i: int| 0 <= i < pre.rdeps(n).len() && pre.rdeps(n)[i] == r;
                assert((pre.rdeps(n)[i] as int) < pre.len());
            }
        }
        assert forall|n: int| 0 <= n < self.len() implies (#[trigger] self.deps(n)).no_duplicates()
            && self.rdeps(n).no_duplicates() by {
            if n != node {
                assert(self.deps(n) == pre.deps(n));
            } else {
                assert(self.deps(n) == new_deps);
            }
        }
    }

    /// The invariant holds again once a rewired cache has recomputed liveness, and nothing
    /// came alive.
    pub(super) proof fn lemma_rewired_wf(&self, pre: &Self, node: NodeId, new_deps: Seq<NodeId>)
        requires
            pre.wf(),
            (node as int) < pre.len(),
            pre.node(node as int).alive,
            new_deps.no_duplicates(),
            forall|k: int| 0 <= k < new_deps.len() ==> (#[trigger] new_deps[k] as int) < pre.len(),
            forall|k: int| 0 <= k < pre.len() ==> pre.handles_after_build(node, new_deps, k) >= 0,
            self.payloads@.len() == pre.payloads@.len(),
            self.typed_caches@ == pre.typed_caches@,
            forall|k: int| 0 <= k < pre.len() ==> {
                &&& #[trigger] self.node(k).identity == pre.node(k).identity
                &&& self.node(k).type_key == pre.node(k).type_key
                &&& self.deps(k) == (if k == node as int { new_deps } else { pre.deps(k) })
                &&& self.node(k).handles == pre.handles_after_build(node, new_deps, k)
                &&& self.rdeps(k).no_duplicates()
            },
            forall|d: int, r: NodeId| 0 <= d < pre.len() ==> (#[trigger] self.rdeps(d).contains(r)
                <==> pre.reader_after_build(node, new_deps, d, r)),
            self.liveness_counted(),
            forall|k: int| 0 <= k < pre.len() && #[trigger] self.node(k).alive ==> pre.node(k).alive,
        ensures
            self.wf(),
            forall|k: int| 0 <= k < pre.len() && #[trigger] self.node(k).alive ==> pre.node(k).alive,
            pre.readers_consistent() && !pre.identity_clash(node, new_deps) ==> self.readers_consistent(),
    {
        assert forall|k: int| 0 <= k < pre.len() implies {
            &&& #[trigger] self.deps(k) == (if k == node as int { new_deps } else { pre.deps(k) })
            &&& self.rdeps(k).no_duplicates()
        } by {
            assert(self.node(k).identity == pre.node(k).identity);
        }
        self.lemma_rewired_ranges(pre, node, new_deps);
        // Readers mirror dependencies, unless the build read a payload whose worker has the
        // identity of a different payload that the previous build read.
        if pre.readers_consistent() && !pre.identity_clash(node, new_deps) {
            let old_deps = pre.deps(node as int);
            assert forall|p: int, d: NodeId|
                0 <= p < self.len() && self.node(p).alive && #[trigger] self.deps(p).contains(d)
                implies self.rdeps(d as int).contains(p as NodeId) by {
                assert(self.node(p).identity == pre.node(p).identity);
                assert(pre.node(p).alive);
                if p == node {
                    assert(new_deps.contains(d));
                    let j = choose|j: int| 0 <= j < new_deps.len() && new_deps[j] == d;
                    assert((new_deps[j] as int) < pre.len());
                    assert(pre.lists_identity(new_deps, pre.node(d as int).identity)) by {
                        assert(pre.node(new_deps[j] as int).identity == pre.node(d as int).identity);
                    }
                    if old_deps.contains(d) {
                        assert(pre.rdeps(d as int).contains(node));
                    } else if pre.lists_identity(old_deps, pre.node(d as int).identity) {
                        let i = choose|i: int| 0 <= i < old_deps.len() && #[trigger] pre.node(old_deps[i] as int).identity
                            == pre.node(d as int).identity;
                        assert(old_deps[i] != new_deps[j]);
                        assert(pre.identity_clash(node, new_deps));
                    }
                    assert(pre.reader_after_build(node, new_deps, d as int, p as NodeId));
                } else {
                    assert(self.deps(p) == pre.deps(p));
                    let j = choose|j: int| 0 <= j < pre.deps(p).len() && pre.deps(p)[j] == d;
                    assert((pre.deps(p)[j] as int) < pre.len());
                    assert(pre.rdeps(d as int).contains(p as NodeId));
                    assert(pre.reader_after_build(node, new_deps, d as int, p as NodeId));
                }
            }
            assert forall|d: int, r: NodeId|
                0 <= d < self.len() && #[trigger] self.rdeps(d).contains(r) && (r as int) < self.len()
                    && self.node(r as int).alive implies self.deps(r as int).contains(d as NodeId) by {
                assert(self.node(r as int).identity == pre.node(r as int).identity);
                assert(pre.node(r as int).alive);
                assert(pre.reader_after_build(node, new_deps, d, r));
                assert(self.node(d).identity == pre.node(d).identity);
                if r != node {
                    assert(pre.rdeps(d).contains(r));
                    assert(pre.deps(r as int).contains(d as NodeId));
                } else if !new_deps.contains(d as NodeId) {
                    assert(pre.rdeps(d).contains(node));
                    assert(old_deps.contains(d as NodeId));
                    assert(pre.lists_identity(new_deps, pre.node(d).identity));
                    let j = choose|j: int| 0 <= j < new_deps.len() && #[trigger] pre.node(new_deps[j] as int).identity
                        == pre.node(d).identity;
                    let i = choose|i: int| 0 <= i < old_deps.len() && old_deps[i] == d as NodeId;
                    assert(old_deps[i] != new_deps[j]);
                    assert(pre.identity_clash(node, new_deps));
                }
            }
        }
        // Keys.
        assert forall|tk: u64, id: u64|
            #![trigger self.typed_caches@[tk].values@[id]]
            self.typed_caches@.contains_key(tk) && self.typed_caches@[tk].values@.contains_key(id)
            implies {
                let n = self.typed_caches@[tk].values@[id] as int;
                &&& 0 <= n < self.len()
                &&& self.node(n).type_key == tk
                &&& self.node(n).identity == id
            } by {
            let n = pre.typed_caches@[tk].values@[id] as int;
            assert(self.node(n).identity == pre.node(n).identity);
        }
        assert forall|n: int| 0 <= n < self.len() && (#[trigger] self.node(n)).alive implies {
            let tk = self.node(n).type_key;
            let id = self.node(n).identity;
            &&& self.typed_caches@.contains_key(tk)
            &&& self.typed_caches@[tk].values@.contains_key(id)
            &&& self.typed_caches@[tk].values@[id] == n
        } by {
            assert(self.node(n).identity == pre.node(n).identity);
            assert(pre.node(n).alive);
        }
    }

    /// Whether `tracker` can be handed to `finish_eval`: it names a payload of this cache,
    /// lists each dependency once, and the run and the tracker hold the references that
    /// `finish_eval` lets go of.
    pub open spec fn accepts_tracker(&self, tracker: &EvalTracker) -> bool {
        &&& (tracker.current_ref as int) < self.len()
        &&& tracker.dependencies@.no_duplicates()
        &&& forall|k: int| 0 <= k < tracker.dependencies@.len() ==> (#[trigger] tracker.dependencies@[k] as int) < self.len()
        &&& forall|k: int| 0 <= k < self.len() ==> #[trigger] self.handles_after_build(tracker.current_ref, tracker.dependencies@, k) >= 0
    }

    /// Checks `accepts_tracker`.
    pub fn check_tracker(&self, tracker: &EvalTracker) -> (ok: bool)
        ensures
            ok == self.accepts_tracker(tracker),
    {
        let n = self.payloads.len();
        let node = tracker.current_ref;
        if node >= n {
            return false;
        }
        let deps = &tracker.dependencies;
        for i in 0..deps.len()
            invariant
                n == self.len(),
                deps@ == tracker.dependencies@,
                forall|k: int| 0 <= k < i ==> (#[trigger] deps@[k] as int) < n,
                forall|a: int, b: int| 0 <= a < b < i ==> deps@[a] != deps@[b],
        {
            if deps[i] >= n {
                proof {
                    assert((deps@[i as int] as int) >= n);
                    assert(!self.accepts_tracker(tracker));
                }
                return false;
            }
            for j in 0..i
                invariant
                    i < deps@.len(),
                    deps@ == tracker.dependencies@,
                    forall|b: int| 0 <= b < j ==> deps@[b] != deps@[i as int],
            {
                if deps[j] == deps[i] {
                    proof {
                        assert(!deps@.no_duplicates()) by {
                            assert(deps@[j as int] == deps@[i as int]);
                        }
                        assert(!self.accepts_tracker(tracker));
                    }
                    return false;
                }
            }
        }
        for k in 0..n
            invariant
                n == self.len(),
                (node as int) < n,
                deps@ == tracker.dependencies@,
                node == tracker.current_ref,
                forall|j: int| 0 <= j < k ==> #[trigger] self.handles_after_build(node, deps@, j) >= 0,
        {
            let mut need: u64 = 0;
            if k == node {
                need = need + 1;
            }
            if contains_node(deps, k) {
                need = need + 1;
            }
            if self.payloads[k].handles < need {
                proof {
                    assert(self.handles_after_build(node, deps@, k as int) < 0);
                    assert(!self.accepts_tracker(tracker));
                }
                return false;
            }
        }
        true
    }

    /// Marks `node` as being rebuilt: clears its rebuild flag and takes the reference that
    /// the run holds while the worker runs.
    pub(crate) fn begin_build(&mut self, node: NodeId)
        requires
            old(self).wf(),
            (node as int) < old(self).len(),
            old(self).node(node as int).alive,
            old(self).node(node as int).handles < u64::MAX,
        ensures
            final(self).wf(),
            old(self).readers_consistent() ==> final(self).readers_consistent(),
            final(self).payloads@ == old(self).payloads@.update(
                node as int,
                old(self).node(node as int).with_handles((old(self).node(node as int).handles + 1) as u64).with_pending(false),
            ),
            final(self).typed_caches@ == old(self).typed_caches@,
    {
        let ghost pre = *self;
        self.acquire(node);
        let ghost mid = *self;
        self.payloads[node].rebuild_pending = false;
        proof {
            assert(self.payloads@ =~= pre.payloads@.update(
                node as int,
                pre.node(node as int).with_handles((pre.node(node as int).handles + 1) as u64).with_pending(false),
            ));
            assert forall|k: int| 0 <= k < mid.len() implies (#[trigger] self.payloads@[k]).same_structure(&mid.payloads@[k]) by {}
            self.lemma_same_structure(&mid);
        }
    }

}

} // verus!
