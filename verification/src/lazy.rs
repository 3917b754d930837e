//! Payloads, lazy handles, evaluation contexts and the steps of an evaluation.
use vstd::prelude::*;
use core::marker::PhantomData;

use crate::cache::Cache;
use crate::identity::{wyhash_digest, LazyIdentity};

verus! {

/// Index of a payload in its `Cache`.
pub type NodeId = usize;

/// The error that an evaluation returns when its worker failed.
#[derive(Clone, Debug)]
pub struct LazyEvalError<E> {
    pub worker_debug_name: &'static str,
    pub source: E,
}

impl<E> LazyEvalError<E> {
    pub fn new(worker_debug_name: &'static str, source: E) -> (error: Self)
        ensures
            error.worker_debug_name == worker_debug_name,
            error.source == source,
    {
        LazyEvalError { worker_debug_name, source }
    }

    /// The worker's error that caused this one.
    pub fn source(&self) -> (source: &E)
        ensures
            *source == self.source,
    {
        &self.source
    }

    /// The text that displays this error: `A turbosloth LazyWorker "<name>" failed`.
    pub fn message(&self) -> (text: String)
        ensures
            text@ == "A turbosloth LazyWorker \""@ + self.worker_debug_name@ + "\" failed"@,
    {
        let mut text = String::from_str("A turbosloth LazyWorker \"");
        text.append(self.worker_debug_name);
        text.append("\" failed");
        text
    }
}

/// What a build left behind: the worker's result, the payloads it read while
/// running, and the payloads that read it during their own builds.
pub struct BuildRecord<A, E> {
    pub artifact: Option<Result<A, LazyEvalError<E>>>,
    pub dependencies: Vec<NodeId>,
    pub reverse_dependencies: Vec<NodeId>,
}

/// How the dependencies of a payload changed with a new build.
pub struct BuildRecordDiff {
    pub added_deps: Vec<NodeId>,
    pub removed_deps: Vec<NodeId>,
}

/// One memoized computation: its worker's identity and value type, its build
/// record, whether it must be rebuilt, and how it is kept alive.
///
/// `handles` counts the strong references held outside the dependency graph
/// (lazy handles connected to it, running evaluations, evaluation trackers); the
/// payloads that an alive payload read hold one more each. `alive` says whether
/// reference counting has not yet freed the payload: payloads that read each other in a
/// cycle keep each other alive.
pub struct LazyPayload<A, E> {
    pub identity: u64,
    pub type_key: u64,
    pub build_record: BuildRecord<A, E>,
    pub rebuild_pending: bool,
    pub handles: u64,
    pub alive: bool,
}

impl<A, E> LazyPayload<A, E> {
    /// A payload that has never been built: it has no artifact and no edges, and it is
    /// pending a rebuild.
    pub open spec fn is_unbuilt(&self) -> bool {
        &&& self.build_record.artifact is None
        &&& self.build_record.dependencies@.len() == 0
        &&& self.build_record.reverse_dependencies@.len() == 0
        &&& self.rebuild_pending
    }

    /// The two payloads differ at most in `alive`.
    pub open spec fn same_but_liveness(&self, other: &Self) -> bool {
        &&& self.identity == other.identity
        &&& self.type_key == other.type_key
        &&& self.build_record == other.build_record
        &&& self.rebuild_pending == other.rebuild_pending
        &&& self.handles == other.handles
    }

    /// The payload once liveness has been settled: `other` with its `alive` flag recomputed,
    /// and, where it is no longer alive, without its artifact and without the references it
    /// held on what it read.
    pub open spec fn settled_from(&self, other: &Self) -> bool {
        &&& self.identity == other.identity
        &&& self.type_key == other.type_key
        &&& self.rebuild_pending == other.rebuild_pending
        &&& self.handles == other.handles
        &&& self.build_record.reverse_dependencies == other.build_record.reverse_dependencies
        &&& if self.alive {
            self.build_record == other.build_record
        } else {
            &&& self.build_record.artifact is None
            &&& self.build_record.dependencies@.len() == 0
        }
    }

    /// This payload with its handle count replaced.
    pub open spec fn with_handles(&self, handles: u64) -> Self {
        LazyPayload {
            identity: self.identity,
            type_key: self.type_key,
            build_record: self.build_record,
            rebuild_pending: self.rebuild_pending,
            handles,
            alive: self.alive,
        }
    }

    /// This payload with its rebuild flag replaced.
    pub open spec fn with_pending(&self, pending: bool) -> Self {
        LazyPayload {
            identity: self.identity,
            type_key: self.type_key,
            build_record: self.build_record,
            rebuild_pending: pending,
            handles: self.handles,
            alive: self.alive,
        }
    }

    /// The two payloads agree on everything that the cache's invariant reads: edges,
    /// keys, handles and liveness.
    pub open spec fn same_structure(&self, other: &Self) -> bool {
        &&& self.identity == other.identity
        &&& self.type_key == other.type_key
        &&& self.build_record.dependencies@ == other.build_record.dependencies@
        &&& self.build_record.reverse_dependencies@ == other.build_record.reverse_dependencies@
        &&& self.handles == other.handles
        &&& self.alive == other.alive
    }

    /// The two payloads differ at most in their readers.
    pub open spec fn same_but_readers(&self, other: &Self) -> bool {
        &&& self.identity == other.identity
        &&& self.type_key == other.type_key
        &&& self.build_record.artifact == other.build_record.artifact
        &&& self.build_record.dependencies@ == other.build_record.dependencies@
        &&& self.rebuild_pending == other.rebuild_pending
        &&& self.handles == other.handles
        &&& self.alive == other.alive
    }

    /// The two payloads differ at most in their handle count.
    pub open spec fn same_but_handles(&self, other: &Self) -> bool {
        &&& self.identity == other.identity
        &&& self.type_key == other.type_key
        &&& self.build_record == other.build_record
        &&& self.rebuild_pending == other.rebuild_pending
        &&& self.alive == other.alive
    }

    /// A payload for the worker with `identity` whose value has type `type_key`; it is
    /// unbuilt, unreferenced and not yet alive.
    pub fn new(identity: u64, type_key: u64) -> (payload: Self)
        ensures
            payload.identity == identity,
            payload.type_key == type_key,
            payload.is_unbuilt(),
            payload.handles == 0,
            !payload.alive,
    {
        LazyPayload {
            identity,
            type_key,
            build_record: BuildRecord {
                artifact: None,
                dependencies: Vec::new(),
                reverse_dependencies: Vec::new(),
            },
            rebuild_pending: true,
            handles: 0,
            alive: false,
        }
    }
}

impl<A, E> LazyPayload<A, E> {
    /// A copy of this payload's worker with nothing built: same identity and value type,
    /// no artifact, no edges, pending a rebuild, unreferenced.
    pub fn unbuilt_copy(&self) -> (copy: Self)
        ensures
            copy.identity == self.identity,
            copy.type_key == self.type_key,
            copy.is_unbuilt(),
            copy.handles == 0,
            !copy.alive,
    {
        LazyPayload::new(self.identity, self.type_key)
    }
}

/// Payloads are equal when their workers have the same identity.
impl<A, E> PartialEq for LazyPayload<A, E> {
    fn eq(&self, other: &Self) -> (equal: bool) {
        self.identity == other.identity
    }
}

impl<A, E> vstd::std_specs::cmp::PartialEqSpecImpl for LazyPayload<A, E> {
    open spec fn obeys_eq_spec() -> bool {
        true
    }

    open spec fn eq_spec(&self, other: &Self) -> bool {
        self.identity == other.identity
    }
}

impl<A, E> Eq for LazyPayload<A, E> {

}

/// The record of one run of a worker: the payload being built and the payloads the
/// worker evaluated, as a set keyed by worker identity: of two payloads whose workers have
/// the same identity (workers of different value types can), only the first is recorded.
pub struct EvalTracker {
    pub dependencies: Vec<NodeId>,
    pub current_ref: NodeId,
}

impl EvalTracker {
    /// A tracker for a run that builds `current_ref` and has read nothing yet.
    pub fn new(current_ref: NodeId) -> (tracker: Self)
        ensures
            tracker.current_ref == current_ref,
            tracker.dependencies@ == Seq::<NodeId>::empty(),
    {
        EvalTracker { dependencies: Vec::new(), current_ref }
    }

    /// Records that the run read `dep`, unless it already read a payload whose worker has
    /// the same identity: the recorded payloads form a set keyed by worker identity. Says
    /// whether `dep` was recorded.
    pub fn register_dependency<A, E>(&mut self, cache: &Cache<A, E>, dep: NodeId) -> (inserted: bool)
        requires
            (dep as int) < cache.len(),
            forall|k: int| 0 <= k < old(self).dependencies@.len() ==> (#[trigger] old(self).dependencies@[k] as int) < cache.len(),
        ensures
            inserted == !cache.lists_identity(old(self).dependencies@, cache.node(dep as int).identity),
            final(self).dependencies@ == (if inserted {
                old(self).dependencies@.push(dep)
            } else {
                old(self).dependencies@
            }),
            final(self).current_ref == old(self).current_ref,
    {
        let identity = cache.payloads[dep].identity;
        let n = self.dependencies.len();
        for i in 0..n
            invariant
                n == self.dependencies@.len(),
                identity == cache.node(dep as int).identity,
                forall|k: int| 0 <= k < n ==> (#[trigger] self.dependencies@[k] as int) < cache.len(),
                forall|k: int| 0 <= k < i ==> #[trigger] cache.node(self.dependencies@[k] as int).identity != identity,
        {
            if cache.payloads[self.dependencies[i]].identity == identity {
                assert(cache.node(self.dependencies@[i as int] as int).identity == identity);
                return false;
            }
        }
        self.dependencies.push(dep);
        true
    }
}

/// A lazy computation as seen from outside the cache: either connected to a payload of a
/// cache, or not yet connected to any.
pub enum OpaqueLazy {
    Cached(NodeId),
    Isolated,
}

impl OpaqueLazy {
    /// Refers to a payload of `cache` on which it holds a reference.
    pub open spec fn is_valid_in<A, E>(&self, cache: &Cache<A, E>) -> bool {
        match *self {
            OpaqueLazy::Cached(n) => (n as int) < cache.len() && cache.node(n as int).handles > 0,
            OpaqueLazy::Isolated => true,
        }
    }

    pub open spec fn spec_is_up_to_date<A, E>(&self, cache: &Cache<A, E>) -> bool {
        match *self {
            OpaqueLazy::Cached(n) => !cache.node(n as int).rebuild_pending,
            OpaqueLazy::Isolated => false,
        }
    }

    /// Another reference to the same computation; a connected one takes one more
    /// reference on its payload.
    pub fn clone_in<A, E>(&self, cache: &mut Cache<A, E>) -> (copy: Self)
        requires
            old(cache).wf(),
            self.is_valid_in(old(cache)),
            self matches OpaqueLazy::Cached(n) ==> old(cache).node(n as int).handles < u64::MAX,
        ensures
            final(cache).wf(),
            old(cache).readers_consistent() ==> final(cache).readers_consistent(),
            copy == *self,
            final(cache).typed_caches@ == old(cache).typed_caches@,
            match *self {
                OpaqueLazy::Cached(n) => final(cache).payloads@ == old(cache).payloads@.update(
                    n as int,
                    old(cache).node(n as int).with_handles((old(cache).node(n as int).handles + 1) as u64),
                ),
                OpaqueLazy::Isolated => final(cache).payloads@ == old(cache).payloads@,
            },
    {
        match self {
            OpaqueLazy::Cached(n) => {
                proof {
                    old(cache).lemma_held_is_alive(*n);
                }
                cache.acquire(*n);
                OpaqueLazy::Cached(*n)
            },
            OpaqueLazy::Isolated => OpaqueLazy::Isolated,
        }
    }

    /// A connected computation is up to date unless its payload is pending a rebuild; an
    /// unconnected one never is.
    pub fn is_up_to_date<A, E>(&self, cache: &Cache<A, E>) -> (up_to_date: bool)
        requires
            self.is_valid_in(cache),
        ensures
            up_to_date == self.spec_is_up_to_date(cache),
            match *self {
                OpaqueLazy::Cached(n) => up_to_date == !cache.node(n as int).rebuild_pending,
                OpaqueLazy::Isolated => !up_to_date,
            },
    {
        match self {
            OpaqueLazy::Cached(n) => !cache.payloads[*n].rebuild_pending,
            OpaqueLazy::Isolated => false,
        }
    }
}

/// A handle on a lazily computed value of type `T`: the identity of its worker, the key of
/// `T`, and where it stands in a cache.
pub struct Lazy<T> {
    pub inner: OpaqueLazy,
    pub identity: u64,
    pub type_key: u64,
    pub debug_name: &'static str,
    pub marker: PhantomData<T>,
}

impl<T> Lazy<T> {
    /// An unconnected lazy value computed by the worker with `identity`, of the value type
    /// keyed by `type_key`.
    pub fn new(identity: u64, type_key: u64, debug_name: &'static str) -> (lazy: Self)
        ensures
            lazy.inner is Isolated,
            lazy.identity == identity,
            lazy.type_key == type_key,
            lazy.debug_name == debug_name,
    {
        Lazy { inner: OpaqueLazy::Isolated, identity, type_key, debug_name, marker: PhantomData }
    }

    /// An unconnected lazy value for a worker whose `Hash` impl writes the chunks
    /// `worker_writes`; its identity is their `LazyIdentity`.
    pub fn from_worker_writes(worker_writes: &Vec<Vec<u8>>, type_key: u64, debug_name: &'static str) -> (lazy: Self)
        ensures
            lazy.inner is Isolated,
            lazy.identity == wyhash_digest(worker_writes.deep_view()),
            lazy.type_key == type_key,
            lazy.debug_name == debug_name,
    {
        let identity = worker_writes.lazy_identity();
        Lazy::new(identity, type_key, debug_name)
    }

    /// Unconnected, or connected to a payload of `cache` for this worker and value type, on
    /// which the handle holds a reference.
    pub open spec fn is_valid_in<A, E>(&self, cache: &Cache<A, E>) -> bool {
        &&& self.inner.is_valid_in(cache)
        &&& self.inner matches OpaqueLazy::Cached(n) ==> cache.node(n as int).identity == self.identity
            && cache.node(n as int).type_key == self.type_key
    }

    /// The payload that an evaluation connects to: the connected one, else the alive one
    /// cached for this worker and value type, else a fresh one at the end of the cache.
    pub open spec fn connected_node<A, E>(&self, cache: &Cache<A, E>) -> NodeId {
        match self.inner {
            OpaqueLazy::Cached(n) => n,
            OpaqueLazy::Isolated => match cache.live_entry(self.type_key, self.identity) {
                Some(n) => n,
                None => cache.len() as NodeId,
            },
        }
    }

    /// Whether the payload `n` is pending a rebuild; a payload not yet created is.
    pub open spec fn pending_at<A, E>(cache: &Cache<A, E>, n: NodeId) -> bool {
        if (n as int) < cache.len() {
            cache.node(n as int).rebuild_pending
        } else {
            true
        }
    }

    /// The first step of an evaluation: connects the handle to its payload (through the
    /// cache, so equal workers share one payload), records the payload as read by `ctx`'s
    /// worker, and decides whether the payload's artifact can be used as it is or the
    /// worker must run. Before a run the rebuild flag is cleared and the run takes a
    /// reference on the payload.
    pub fn begin_eval<A, E>(&mut self, cache: &mut Cache<A, E>, ctx: &mut RunContext) -> (step: EvalStep)
        requires
            old(cache).wf(),
            old(self).is_valid_in(old(cache)),
            old(ctx).is_valid_in(old(cache)),
            old(cache).handle_room_at(old(self).connected_node(old(cache)), 3),
            old(cache).len() < usize::MAX,
        ensures
            ({
                let n = old(self).connected_node(old(cache));
                let was_pending = Self::pending_at(old(cache), n);
                let base = if (n as int) < old(cache).len() { old(cache).node(n as int).handles as int } else { 0int };
                let connect = if old(self).inner is Isolated { 1int } else { 0int };
                let reg = match old(ctx).tracker {
                    Some(t) => if old(cache).lists_identity(t.dependencies@, old(self).identity) { 0int } else { 1int },
                    None => 0int,
                };
                let build = if was_pending { 1int } else { 0int };
                &&& final(cache).wf()
                &&& (old(cache).readers_consistent() ==> final(cache).readers_consistent())
                &&& final(self).inner == OpaqueLazy::Cached(n)
                &&& final(self).identity == old(self).identity
                &&& final(self).type_key == old(self).type_key
                &&& final(self).debug_name == old(self).debug_name
                &&& final(self).is_valid_in(final(cache))
                &&& final(ctx).is_valid_in(final(cache))
                &&& (n as int) < final(cache).len()
                &&& final(cache).payloads@.len() == old(cache).payloads@.len() + (if (n as int) < old(cache).len() { 0int } else { 1int })
                &&& final(cache).live_entry(old(self).type_key, old(self).identity) == Some(n)
                &&& final(cache).node(n as int).alive
                &&& !final(cache).node(n as int).rebuild_pending
                &&& final(cache).node(n as int).handles == base + connect + reg + build
                &&& ((n as int) < old(cache).len() ==> final(cache).node(n as int).build_record == old(cache).node(n as int).build_record)
                &&& ((n as int) == old(cache).len() ==> final(cache).node(n as int).build_record.artifact is None
                    && final(cache).deps(n as int).len() == 0 && final(cache).rdeps(n as int).len() == 0)
                &&& forall|k: int| 0 <= k < old(cache).len() && k != n ==> #[trigger] final(cache).payloads@[k] == old(cache).payloads@[k]
                &&& match old(ctx).tracker {
                    Some(t) => final(ctx).tracker matches Some(t2) && t2.current_ref == t.current_ref
                        && t2.dependencies@ == (if old(cache).lists_identity(t.dependencies@, old(self).identity) {
                            t.dependencies@
                        } else {
                            t.dependencies@.push(n)
                        }),
                    None => final(ctx).tracker is None,
                }
                &&& match step {
                    EvalStep::Ready(m) => m == n && !was_pending,
                    EvalStep::Build(t) => was_pending && t.current_ref == n && t.dependencies@.len() == 0,
                }
                &&& (step is Build <==> ((n as int) >= old(cache).len() || old(cache).node(n as int).rebuild_pending))
                &&& (step is Ready ==> (n as int) < old(cache).len() && !old(cache).node(n as int).rebuild_pending
                    && final(cache).node(n as int).build_record == old(cache).node(n as int).build_record
                    && final(cache).node(n as int).handles == base + connect + reg)
                &&& (step is Build ==> final(cache).node(n as int).handles == base + connect + reg + 1)
            }),
    {
        let ghost c0 = *old(cache);
        let ghost n = self.connected_node(&c0);
        let node = match self.inner {
            OpaqueLazy::Cached(n) => n,
            OpaqueLazy::Isolated => {
                proof {
                    if let Some(m) = c0.live_entry(self.type_key, self.identity) {
                        assert(c0.node(m as int).handles + 3 <= u64::MAX);
                    }
                }
                let n = cache.get_or_insert_with(self.type_key, self.identity);
                self.inner = OpaqueLazy::Cached(n);
                n
            },
        };
        let ghost c1 = *cache;
        proof {
            assert(node == n);
            if c0.len() <= node {
                assert(c1.node(node as int).handles == 1);
            } else {
                assert(c1.node(node as int).handles <= c0.node(node as int).handles + 1);
                assert(c0.node(node as int).handles + 3 <= u64::MAX);
            }
            if old(self).inner is Cached {
                c0.lemma_held_is_alive(node);
                assert(c1 == c0);
                assert(c0.node(node as int).identity == self.identity);
                c0.lemma_alive_is_entry(node);
            }
            assert(c1.node(node as int).alive);
            assert(c1.node(node as int).handles + 2 <= u64::MAX);
            assert(c1.node(node as int).identity == self.identity);
            if let Some(t) = old(ctx).tracker {
                assert forall|i: int| 0 <= i < t.dependencies@.len() implies #[trigger] c1.node(
                    t.dependencies@[i] as int,
                ).identity == c0.node(t.dependencies@[i] as int).identity by {
                    let k = t.dependencies@[i] as int;
                    assert(k < c0.len());
                    if k != node as int {
                        assert(c1.payloads@[k] == c0.payloads@[k]);
                    }
                }
                let ds = t.dependencies@;
                if c1.lists_identity(ds, self.identity) {
                    let i = choose|i: int| 0 <= i < ds.len() && #[trigger] c1.node(ds[i] as int).identity == self.identity;
                    assert(c0.node(ds[i] as int).identity == self.identity);
                }
                if c0.lists_identity(ds, self.identity) {
                    let i = choose|i: int| 0 <= i < ds.len() && #[trigger] c0.node(ds[i] as int).identity == self.identity;
                    assert(c1.node(ds[i] as int).identity == self.identity);
                }
                assert(c1.lists_identity(ds, c1.node(node as int).identity) == c0.lists_identity(ds, self.identity));
            }
        }
        ctx.register_dependency(cache, node);
        let ghost c2 = *cache;
        let step = if cache.payloads[node].rebuild_pending {
            cache.begin_build(node);
            EvalStep::Build(EvalTracker::new(node))
        } else {
            EvalStep::Ready(node)
        };
        proof {
            let c3 = *cache;
            assert(c2.node(node as int).rebuild_pending == Self::pending_at(&c0, n)) by {
                if (n as int) < c0.len() {
                    assert(c1.node(n as int).rebuild_pending == c0.node(n as int).rebuild_pending);
                } else {
                    assert(c1.node(n as int).is_unbuilt());
                }
            }
            assert forall|k: int| 0 <= k < c0.len() && k != n implies #[trigger] c3.payloads@[k] == c0.payloads@[k] by {
                assert(c1.payloads@[k] == c0.payloads@[k]);
                assert(c2.payloads@[k] == c1.payloads@[k]);
            }
            assert(c3.live_entry(self.type_key, self.identity) == Some(n)) by {
                assert(c3.typed_caches@ == c1.typed_caches@);
                assert(c3.node(n as int).alive == c1.node(n as int).alive);
            }
        }
        step
    }

    pub fn identity(&self) -> (identity: u64)
        ensures
            identity == self.identity,
    {
        self.identity
    }

    pub fn is_up_to_date<A, E>(&self, cache: &Cache<A, E>) -> (up_to_date: bool)
        requires
            self.inner.is_valid_in(cache),
        ensures
            up_to_date == self.inner.spec_is_up_to_date(cache),
            match self.inner {
                OpaqueLazy::Cached(n) => up_to_date == !cache.node(n as int).rebuild_pending,
                OpaqueLazy::Isolated => !up_to_date,
            },
    {
        self.inner.is_up_to_date(cache)
    }

    pub fn is_stale<A, E>(&self, cache: &Cache<A, E>) -> (stale: bool)
        requires
            self.inner.is_valid_in(cache),
        ensures
            stale == !self.inner.spec_is_up_to_date(cache),
            match self.inner {
                OpaqueLazy::Cached(n) => stale == cache.node(n as int).rebuild_pending,
                OpaqueLazy::Isolated => stale,
            },
    {
        !self.inner.is_up_to_date(cache)
    }

    pub fn into_opaque(self) -> (opaque: OpaqueLazy)
        ensures
            opaque == self.inner,
    {
        self.inner
    }

    /// Another handle on the same computation; a connected one takes one more reference on
    /// its payload.
    pub fn clone_in<A, E>(&self, cache: &mut Cache<A, E>) -> (copy: Self)
        requires
            old(cache).wf(),
            self.inner.is_valid_in(old(cache)),
            self.inner matches OpaqueLazy::Cached(n) ==> old(cache).node(n as int).handles < u64::MAX,
        ensures
            final(cache).wf(),
            old(cache).readers_consistent() ==> final(cache).readers_consistent(),
            copy.inner == self.inner,
            copy.identity == self.identity,
            copy.type_key == self.type_key,
            copy.debug_name == self.debug_name,
            final(cache).typed_caches@ == old(cache).typed_caches@,
            match self.inner {
                OpaqueLazy::Cached(n) => final(cache).payloads@ == old(cache).payloads@.update(
                    n as int,
                    old(cache).node(n as int).with_handles((old(cache).node(n as int).handles + 1) as u64),
                ),
                OpaqueLazy::Isolated => final(cache).payloads@ == old(cache).payloads@,
            },
    {
        let inner = self.inner.clone_in(cache);
        Lazy {
            inner,
            identity: self.identity,
            type_key: self.type_key,
            debug_name: self.debug_name,
            marker: PhantomData,
        }
    }

    /// Drops this handle; a connected one lets go of its reference on its payload.
    pub fn release<A, E>(self, cache: &mut Cache<A, E>)
        requires
            old(cache).wf(),
            self.inner.is_valid_in(old(cache)),
        ensures
            final(cache).wf(),
            old(cache).readers_consistent() ==> final(cache).readers_consistent(),
            final(cache).typed_caches@ == old(cache).typed_caches@,
            final(cache).payloads@.len() == old(cache).payloads@.len(),
            self.inner is Isolated ==> final(cache).payloads@ == old(cache).payloads@,
            self.inner matches OpaqueLazy::Cached(n) ==> {
                &&& final(cache).alive_is_largest_supported_in(old(cache).alive_set())
                &&& final(cache).node(n as int).settled_from(
                    &old(cache).node(n as int).with_handles((old(cache).node(n as int).handles - 1) as u64),
                )
                &&& forall|k: int|
                    0 <= k < old(cache).len() && k != n ==> (#[trigger] final(cache).payloads@[k]).settled_from(
                        &old(cache).payloads@[k],
                    )
            },
            forall|k: int| 0 <= k < old(cache).len() && #[trigger] final(cache).node(k).alive ==> old(cache).node(k).alive,
    {
        match self.inner {
            OpaqueLazy::Cached(n) => {
                cache.release(n);
            },
            OpaqueLazy::Isolated => {},
        }
    }

    /// The artifact of a run: the worker's value, or its error tagged with this
    /// computation's debug name.
    pub fn build_artifact<A, E>(&self, result: Result<A, E>) -> (artifact: Result<A, LazyEvalError<E>>)
        ensures
            match result {
                Ok(value) => artifact == Ok::<A, LazyEvalError<E>>(value),
                Err(source) => artifact == Err::<A, LazyEvalError<E>>(
                    LazyEvalError { worker_debug_name: self.debug_name, source },
                ),
            },
    {
        match result {
            Ok(value) => Ok(value),
            Err(source) => Err(LazyEvalError::new(self.debug_name, source)),
        }
    }
}

/// What an evaluation must do next.
pub enum EvalStep {
    /// The payload is up to date: its artifact is the result.
    Ready(NodeId),
    /// The payload must be built: run its worker with a context that carries this tracker,
    /// then hand the tracker and the result to `Cache::finish_eval`.
    Build(EvalTracker),
}

/// Where an evaluation happens: inside the run of another worker, whose tracker records
/// what it reads, or at the top level.
pub struct RunContext {
    pub tracker: Option<EvalTracker>,
}

/// A weak reference to the payload of a running worker, able to invalidate it later.
pub struct InvalidationTrigger {
    pub node: NodeId,
}

impl InvalidationTrigger {
    /// Invalidates the payload, with its readers, if it is still alive; otherwise does nothing.
    /// An alive payload from which invalidation would never end is not admitted (see
    /// `Cache::invalidation_terminates`).
    pub fn fire<A, E>(&self, cache: &mut Cache<A, E>)
        requires
            old(cache).wf(),
            (self.node as int) < old(cache).len() && old(cache).node(self.node as int).alive
                ==> !old(cache).invalidation_loops(self.node),
        ensures
            final(cache).wf(),
            old(cache).readers_consistent() ==> final(cache).readers_consistent(),
            final(cache).payloads@.len() == old(cache).payloads@.len(),
            final(cache).typed_caches@ == old(cache).typed_caches@,
            forall|k: int|
                0 <= k < old(cache).len() ==> #[trigger] final(cache).payloads@[k] == (if (self.node as int) < old(cache).len()
                    && old(cache).node(self.node as int).alive {
                    old(cache).payloads@[k].with_pending(
                        old(cache).payloads@[k].rebuild_pending || old(cache).reads_transitively(self.node, k as NodeId),
                    )
                } else {
                    old(cache).payloads@[k]
                }),
    {
        if self.node < cache.num_payloads() && cache.payloads[self.node].alive {
            cache.invalidate(self.node);
        }
    }
}

impl RunContext {
    /// The context of an evaluation at the top level: it records nothing.
    pub fn detached() -> (ctx: Self)
        ensures
            ctx.tracker is None,
    {
        RunContext { tracker: None }
    }

    /// The context of a worker's run, recording into `tracker`.
    pub fn for_build(tracker: EvalTracker) -> (ctx: Self)
        ensures
            ctx.tracker == Some(tracker),
    {
        RunContext { tracker: Some(tracker) }
    }

    /// The context's tracker lists each payload once, and holds a reference on each.
    pub open spec fn is_valid_in<A, E>(&self, cache: &Cache<A, E>) -> bool {
        match self.tracker {
            Some(t) => {
                &&& t.dependencies@.no_duplicates()
                &&& forall|k: int| 0 <= k < t.dependencies@.len() ==> (#[trigger] t.dependencies@[k] as int) < cache.len()
            },
            None => true,
        }
    }

    /// A trigger that invalidates the payload this context's worker is building.
    pub fn get_invalidation_trigger(&self) -> (trigger: InvalidationTrigger)
        requires
            self.tracker is Some,
        ensures
            trigger.node == self.tracker->0.current_ref,
    {
        InvalidationTrigger { node: self.tracker.as_ref().unwrap().current_ref }
    }

    /// Records that the worker read `dep`; a payload new to the tracker gains the reference
    /// the tracker holds on it. At the top level nothing is recorded.
    pub fn register_dependency<A, E>(&mut self, cache: &mut Cache<A, E>, dep: NodeId)
        requires
            old(cache).wf(),
            (dep as int) < old(cache).len(),
            old(cache).node(dep as int).alive,
            old(cache).node(dep as int).handles < u64::MAX,
            old(self).is_valid_in(old(cache)),
        ensures
            final(cache).wf(),
            old(cache).readers_consistent() ==> final(cache).readers_consistent(),
            final(self).is_valid_in(final(cache)),
            final(cache).typed_caches@ == old(cache).typed_caches@,
            match old(self).tracker {
                Some(t) => {
                    let fresh = !old(cache).lists_identity(t.dependencies@, old(cache).node(dep as int).identity);
                    &&& final(self).tracker matches Some(t2) && t2.current_ref == t.current_ref
                        && t2.dependencies@ == (if fresh { t.dependencies@.push(dep) } else { t.dependencies@ })
                    &&& final(cache).payloads@ == (if fresh {
                        old(cache).payloads@.update(
                            dep as int,
                            old(cache).node(dep as int).with_handles((old(cache).node(dep as int).handles + 1) as u64),
                        )
                    } else {
                        old(cache).payloads@
                    })
                },
                None => final(self).tracker is None && final(cache).payloads@ == old(cache).payloads@,
            },
    {
        match &mut self.tracker {
            Some(tracker) => {
                let ghost t0 = *tracker;
                let inserted = tracker.register_dependency(cache, dep);
                if inserted {
                    cache.acquire(dep);
                    proof {
                        assert forall|a: int, b: int| 0 <= a < b < tracker.dependencies@.len() implies tracker.dependencies@[a] != tracker.dependencies@[b] by {
                            if b == t0.dependencies@.len() && tracker.dependencies@[a] == dep {
                                assert(t0.dependencies@[a] == dep);
                                assert(old(cache).node(t0.dependencies@[a] as int).identity == old(cache).node(dep as int).identity);
                            }
                        }
                    }
                }
            },
            None => {},
        }
    }
}

} // verus!
